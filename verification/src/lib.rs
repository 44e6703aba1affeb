//! Layout analysis for documents: grouping positioned text into markdown blocks.

pub mod bindings;
pub mod cell_shape;
pub mod cells;
pub mod code_points;
pub mod column_tables;
pub mod config;
pub mod entries;
pub mod entry_shape;
pub mod escapes;
pub mod figure_cluster;
pub mod figure_shape;
pub mod flow_shape;
pub mod font_db;
pub mod font_sizes;
pub mod gathering;
pub mod glyph_decoder;
pub mod glyph_shape;
pub mod grid;
pub mod grid_shape;
pub mod heading_shape;
pub mod heading_text;
pub mod headings;
pub mod hr;
pub mod http_ocr;
pub mod inferred;
pub mod inline_shape;
pub mod item_marks;
pub mod join_shape;
pub mod join_tables;
pub mod label_text;
pub mod list_shape;
pub mod lists;
pub mod markdown;
pub mod markdown_shape;
pub mod marks;
pub mod number_text;
pub mod numbers;
pub mod ocr_merge;
pub mod ocr_text;
pub mod page_classify;
pub mod page_headings;
pub mod page_items;
pub mod page_parts;
pub mod page_ruled;
pub mod page_tables;
pub mod paragraphs;
pub mod part_shape;
pub mod passages;
pub mod png;
pub mod python;
pub mod range_shape;
pub mod reader;
pub mod reading_shape;
pub mod recognition;
pub mod region_classify;
pub mod region_reader;
pub mod region_ruled;
pub mod region_tables;
pub mod render;
pub mod repetition;
pub mod row_shape;
pub mod rows;
pub mod ruled_grid;
pub mod rule_shape;
pub mod running_shape;
pub mod segments;
pub mod size_shape;
pub mod sort;
pub mod span_text;
pub mod stop_shape;
pub mod table_shape;
pub mod table_text;
pub mod tesseract;
pub mod text;
pub mod text_reader;
pub mod tracks;
pub mod trimming;
pub mod types;
pub mod union_find;
