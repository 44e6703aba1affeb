# LiteParse

LiteParse turns the pages of a PDF into text and markdown. This crate holds its logic, verified
with Verus: every executable function has a contract, and the laws that relate functions to each
other are proof functions whose names begin with `law_`.

Lengths, coordinates and font sizes are integers: thousandths of a point. Rotations are
thousandths of a degree, resolutions thousandths of a dot per inch. Thresholds that are
fractions are compared exactly, by multiplication.

## Layout

- `src/` is the library.
  - Text and numbers: `text`, `numbers`, `sort`, `escapes`, `types`.
  - From characters to text items: `code_points`, `glyph_decoder`, `font_db`, `segments`,
    `text_reader`, `item_marks`, `page_parts`.
  - Lines, cells and tables: `span_text`, `cells`, `rows`, `tracks`, `page_tables`, `inferred`,
    `column_tables`, `label_text`, `entries`, `join_tables`, `region_tables`, `union_find`,
    `grid`, `ruled_grid`, `page_ruled`, `region_ruled`, `table_shape`.
  - Headings, lists, paragraphs and running lines: `font_sizes`, `heading_text`, `headings`,
    `page_headings`, `lists`, `paragraphs`, `repetition`, `hr`.
  - Pages as blocks, and blocks as markdown: `reader`, `page_classify`, `region_reader`,
    `region_classify`, `figure_cluster`, `marks`, `render`, `markdown`.
  - Recognition: `ocr_text`, `ocr_merge`, `http_ocr`, `tesseract`, `png`.
  - Settings and callers in other languages: `config`, `bindings`, `python`.
- `tests/` runs the library.
- `app/` is what surrounds it: engines, servers, files, and callers in other languages.

What is taken from outside and not proved stands beside its contract: `blake3::hash` and the
readers of `rmp` in `font_db`, the PNG encoders of `image` in `png`, the clock in `http_ocr`,
Unicode's tables in `text`, `char::from_u32` in `code_points`, and `Arc::clone` in `types`.
