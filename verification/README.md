# psd_great

Reading and writing of Adobe Photoshop PSD/PSB structures, verified with
Verus.

- `src/` is the library. Every function carries a `requires`/`ensures`
  contract over mathematical models (byte sequences, `Seq`, `int`), and the
  `law_*` proof functions state properties that span functions, mostly that
  what a writer produces a reader gives back.
  - `bytes`, `strings`: big-endian integers, UTF-8 and UTF-16 text.
  - `io`: the section-aware reader and the writer, the file header, color
    mode data, and the layer tree built from the flat layer records' folder
    markers.
  - `reader`: the stream reader, the composite image section, blending
    ranges and global mask info.
  - `compression`: PackBits, ZIP (through `flate2`) and ZIP with
    prediction.
  - `format`: image resources (thumbnails, color samplers, grid and guides,
    paths, alpha names, caption digest and others) and the writer of the
    whole image resource section.
  - `layer_effects`: the layer effects block (shadows, glows, bevel, solid
    fill) with its fixed-point fields held as their stored bits.
  - `additional_info`, `patterns`, `annotations`, `pixel_source`,
    `filter_effects`: layer tagged blocks.
  - `xml`: the variables and data-set XML documents, read and written
    through `quick_xml`.
  - `composite`: combining composite planes into RGBA pixels.
- `app/` holds what stays outside the verified library: conversions of
  fixed-point and IEEE fields to and from floating point.
- `tests/` exercises the library on concrete inputs.
