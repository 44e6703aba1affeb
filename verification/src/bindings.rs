//! Settings, text and graphics as callers in other languages give and get them: with
//! optional parts, and with names for choices.

use vstd::prelude::*;
use vstd::string::*;
use crate::png;
use crate::config;
use crate::config::{ImageMode, LiteParseConfig, OutputFormat};
use crate::numbers;
use crate::ocr_merge::PageComplexityStats;
use crate::page_parts;
use crate::page_parts::GraphicView;
use crate::png::ExtractedImage;
use crate::text;
use crate::types;
use crate::types::{GraphicPrimitive, ItemView, Page, ParsedPage, Rect, TextItem};

verus! {

// ---------------------------------------------------------------------------
// Names of choices
// ---------------------------------------------------------------------------

/// The output format with a name, if there is one.
pub open spec fn format_named(s: Seq<char>) -> Option<OutputFormat> {
    if s == "json"@ {
        Some(OutputFormat::Json)
    } else if s == "text"@ {
        Some(OutputFormat::Text)
    } else if s == "markdown"@ || s == "md"@ {
        Some(OutputFormat::Markdown)
    } else {
        None
    }
}

/// The output format with a name; JSON for unknown names.
pub open spec fn format_or_json(s: Seq<char>) -> OutputFormat {
    match format_named(s) {
        Some(f) => f,
        None => OutputFormat::Json,
    }
}

/// The image mode with a name; placeholders for unknown names.
pub open spec fn mode_named(s: Seq<char>) -> ImageMode {
    if s == "off"@ || s == "none"@ {
        ImageMode::Off
    } else if s == "embed"@ {
        ImageMode::Embed
    } else {
        ImageMode::Placeholder
    }
}

/// The name of an output format.
pub open spec fn format_name(f: OutputFormat) -> Seq<char> {
    match f {
        OutputFormat::Json => "json"@,
        OutputFormat::Text => "text"@,
        OutputFormat::Markdown => "markdown"@,
    }
}

/// The name of an image mode.
pub open spec fn mode_name(m: ImageMode) -> Seq<char> {
    match m {
        ImageMode::Off => "off"@,
        ImageMode::Placeholder => "placeholder"@,
        ImageMode::Embed => "embed"@,
    }
}

/// The output format with a name, if there is one.
pub fn parse_output_format(s: &str) -> (r: Option<OutputFormat>)
    ensures
        r == format_named(s@),
{
    if text::str_eq(s, "json") {
        Some(OutputFormat::Json)
    } else if text::str_eq(s, "text") {
        Some(OutputFormat::Text)
    } else if text::str_eq(s, "markdown") || text::str_eq(s, "md") {
        Some(OutputFormat::Markdown)
    } else {
        None
    }
}

/// The image mode with a name; placeholders for unknown names.
pub fn parse_image_mode(s: &str) -> (r: ImageMode)
    ensures
        r == mode_named(s@),
{
    if text::str_eq(s, "off") || text::str_eq(s, "none") {
        ImageMode::Off
    } else if text::str_eq(s, "embed") {
        ImageMode::Embed
    } else {
        ImageMode::Placeholder
    }
}

/// The name of an output format.
pub fn output_format_name(f: OutputFormat) -> (r: String)
    ensures
        r@ == format_name(f),
{
    match f {
        OutputFormat::Json => text::to_string("json"),
        OutputFormat::Text => text::to_string("text"),
        OutputFormat::Markdown => text::to_string("markdown"),
    }
}

/// The name of an image mode.
pub fn image_mode_name(m: ImageMode) -> (r: String)
    ensures
        r@ == mode_name(m),
{
    match m {
        ImageMode::Off => text::to_string("off"),
        ImageMode::Placeholder => text::to_string("placeholder"),
        ImageMode::Embed => text::to_string("embed"),
    }
}

/// The names of choices lead back to the choices.
pub proof fn law_names_lead_back(f: OutputFormat, m: ImageMode)
    ensures
        format_named(format_name(f)) == Some(f),
        mode_named(mode_name(m)) == m,
{
    reveal_strlit("json");
    reveal_strlit("text");
    reveal_strlit("markdown");
    reveal_strlit("md");
    reveal_strlit("off");
    reveal_strlit("none");
    reveal_strlit("embed");
    reveal_strlit("placeholder");
    assert("json"@[0] == 'j' && "text"@[0] == 't' && "markdown"@[0] == 'm');
    assert("off"@[0] == 'o' && "placeholder"@[0] == 'p' && "embed"@[0] == 'e' && "none"@[0] == 'n');
}

// ---------------------------------------------------------------------------
// Settings
// ---------------------------------------------------------------------------

/// Settings as a caller gives them; what is not given has its default.
#[derive(Clone, Debug)]
pub struct JsLiteParseConfig {
    pub ocr_language: Option<String>,
    pub ocr_enabled: Option<bool>,
    pub ocr_server_url: Option<String>,
    /// Names with their values; of headers with the same name, the last one counts.
    pub ocr_server_headers: Option<Vec<(String, String)>>,
    pub tessdata_path: Option<String>,
    pub max_pages: Option<u32>,
    pub target_pages: Option<String>,
    /// In thousandths of a dot per inch.
    pub dpi: Option<u32>,
    pub output_format: Option<String>,
    pub preserve_very_small_text: Option<bool>,
    pub password: Option<String>,
    pub quiet: Option<bool>,
    pub num_workers: Option<u32>,
    pub image_mode: Option<String>,
    pub extract_links: Option<bool>,
}

/// A setting, or its default where it is not given.
pub open spec fn given<T>(v: Option<T>, default: T) -> T {
    match v {
        Some(x) => x,
        None => default,
    }
}

/// Whether settings are those that a caller gives, with the defaults of a machine with
/// the given number of cores for the others. Nothing is said of the number of workers
/// and of the output format.
pub open spec fn follows(c: LiteParseConfig, js: JsLiteParseConfig) -> bool {
    &&& c.ocr_language@ == match js.ocr_language {
        Some(s) => s@,
        None => "eng"@,
    }
    &&& c.ocr_enabled == given(js.ocr_enabled, true)
    &&& c.ocr_server_url == js.ocr_server_url
    &&& match js.ocr_server_headers {
        Some(h) => c.ocr_server_headers@ == by_name(h@),
        None => c.ocr_server_headers@.len() == 0,
    }
    &&& c.tessdata_path == js.tessdata_path
    &&& c.max_pages == given(js.max_pages, 1000)
    &&& c.target_pages == js.target_pages
    &&& c.dpi == given(js.dpi, 150_000)
    &&& c.preserve_very_small_text == given(js.preserve_very_small_text, false)
    &&& c.password == js.password
    &&& c.quiet == given(js.quiet, false)
    &&& c.image_mode == match js.image_mode {
        Some(s) => mode_named(s@),
        None => ImageMode::Placeholder,
    }
    &&& c.extract_links == given(js.extract_links, true)
}

/// Whether settings are those that a caller gives, with the defaults of a machine with the
/// given number of cores for the others. An unknown output format counts as JSON.
pub open spec fn is_rust_for(c: LiteParseConfig, js: JsLiteParseConfig, cores: Option<usize>) -> bool {
    &&& follows(c, js)
    &&& c.output_format == match js.output_format {
        Some(s) => format_or_json(s@),
        None => OutputFormat::Json,
    }
    &&& c.num_workers == match js.num_workers {
        Some(n) => n as int,
        None => config::workers_for(cores),
    }
}

/// Whether settings that a caller gets are those in use. Headers come by their names, and
/// no headers are given as none.
pub open spec fn is_js_for(js: JsLiteParseConfig, c: LiteParseConfig) -> bool {
    &&& js.ocr_language == Some(c.ocr_language)
    &&& js.ocr_enabled == Some(c.ocr_enabled)
    &&& js.ocr_server_url == c.ocr_server_url
    &&& match js.ocr_server_headers {
        Some(h) => h@ == by_name(c.ocr_server_headers@) && names_differ(h@) && h@.len() > 0,
        None => c.ocr_server_headers@.len() == 0,
    }
    &&& js.tessdata_path == c.tessdata_path
    &&& js.max_pages == Some(c.max_pages as u32)
    &&& js.target_pages == c.target_pages
    &&& js.dpi == Some(c.dpi)
    &&& js.output_format is Some && js.output_format->0@ == format_name(c.output_format)
    &&& js.preserve_very_small_text == Some(c.preserve_very_small_text)
    &&& js.password == c.password
    &&& js.quiet == Some(c.quiet)
    &&& js.num_workers == Some(c.num_workers as u32)
    &&& js.image_mode is Some && js.image_mode->0@ == mode_name(c.image_mode)
    &&& js.extract_links == Some(c.extract_links)
}

/// The settings in use that a caller gets and gives again are the same, as far as the numbers
/// of pages and of workers fit. Of headers with the same name, the last one stays.
pub proof fn law_settings_come_back(
    c: LiteParseConfig,
    js: JsLiteParseConfig,
    back: LiteParseConfig,
    cores: Option<usize>,
)
    requires
        is_js_for(js, c),
        is_rust_for(back, js, cores),
        c.max_pages <= u32::MAX,
        c.num_workers <= u32::MAX,
    ensures
        back.ocr_language@ == c.ocr_language@,
        back.ocr_enabled == c.ocr_enabled,
        back.ocr_server_url == c.ocr_server_url,
        back.ocr_server_headers@ == by_name(c.ocr_server_headers@),
        names_differ(c.ocr_server_headers@) ==> back.ocr_server_headers@
            == c.ocr_server_headers@,
        back.tessdata_path == c.tessdata_path,
        back.max_pages == c.max_pages,
        back.target_pages == c.target_pages,
        back.dpi == c.dpi,
        back.output_format == c.output_format,
        back.preserve_very_small_text == c.preserve_very_small_text,
        back.password == c.password,
        back.quiet == c.quiet,
        back.num_workers == c.num_workers,
        back.image_mode == c.image_mode,
        back.extract_links == c.extract_links,
{
    law_names_lead_back(c.output_format, c.image_mode);
    law_headers_by_name(c.ocr_server_headers@);
}

/// What is reported of an output format that does not exist.
pub open spec fn bad_format(name: Seq<char>) -> Seq<char> {
    "invalid outputFormat: "@ + name + " (expected 'json', 'text', or 'markdown')"@
}

impl JsLiteParseConfig {
    fn settings(self, cores: Option<usize>, format: OutputFormat, workers: usize) -> (r:
        LiteParseConfig)
        ensures
            follows(r, self),
            r.output_format == format,
            r.num_workers == workers,
    {
        let mut cfg: LiteParseConfig = LiteParseConfig::for_cores(cores);
        if let Some(v) = self.ocr_language {
            cfg.ocr_language = v;
        }
        if let Some(v) = self.ocr_enabled {
            cfg.ocr_enabled = v;
        }
        if let Some(v) = self.ocr_server_headers {
            cfg.ocr_server_headers = headers_by_name(&v);
        }
        if let Some(v) = self.max_pages {
            cfg.max_pages = v as usize;
        }
        if let Some(v) = self.dpi {
            cfg.dpi = v;
        }
        if let Some(v) = self.preserve_very_small_text {
            cfg.preserve_very_small_text = v;
        }
        if let Some(v) = self.quiet {
            cfg.quiet = v;
        }
        if let Some(v) = &self.image_mode {
            cfg.image_mode = parse_image_mode(v.as_str());
        }
        if let Some(v) = self.extract_links {
            cfg.extract_links = v;
        }
        cfg.ocr_server_url = self.ocr_server_url;
        cfg.tessdata_path = self.tessdata_path;
        cfg.target_pages = self.target_pages;
        cfg.password = self.password;
        cfg.output_format = format;
        cfg.num_workers = workers;
        cfg
    }

    /// The settings that a caller gives, with defaults for the others. An unknown output
    /// format counts as JSON.
    pub fn into_rust(self, cores: Option<usize>) -> (r: LiteParseConfig)
        ensures
            is_rust_for(r, self, cores),
    {
        let format: OutputFormat = match &self.output_format {
            Some(s) => match parse_output_format(s.as_str()) {
                Some(f) => f,
                None => OutputFormat::Json,
            },
            None => OutputFormat::Json,
        };
        let workers: usize = match self.num_workers {
            Some(n) => n as usize,
            None => config::default_num_workers(cores),
        };
        self.settings(cores, format, workers)
    }

    /// The settings that a caller in a browser gives, with defaults for the others, and
    /// with one worker. An unknown output format is an error.
    pub fn into_core(self) -> (r: Result<LiteParseConfig, String>)
        ensures
            match r {
                Ok(c) => {
                    &&& follows(c, self)
                    &&& c.num_workers == 1
                    &&& match self.output_format {
                        Some(s) => format_named(s@) == Some(c.output_format),
                        None => c.output_format == OutputFormat::Json,
                    }
                },
                Err(e) => self.output_format is Some && format_named(self.output_format->0@) is None
                    && e@ == bad_format(self.output_format->0@),
            },
    {
        let format: OutputFormat = match &self.output_format {
            Some(s) => match parse_output_format(s.as_str()) {
                Some(f) => f,
                None => {
                    let mut e: String = text::to_string("invalid outputFormat: ");
                    e.append(s.as_str());
                    e.append(" (expected 'json', 'text', or 'markdown')");
                    return Err(e);
                },
            },
            None => OutputFormat::Json,
        };
        Ok(self.settings(None, format, 1))
    }

    /// The settings in use, as a caller gets them.
    pub fn from_rust(cfg: &LiteParseConfig) -> (r: JsLiteParseConfig)
        ensures
            is_js_for(r, *cfg),
    {
        JsLiteParseConfig {
            ocr_language: Some(cfg.ocr_language.clone()),
            ocr_enabled: Some(cfg.ocr_enabled),
            ocr_server_url: types::clone_option(&cfg.ocr_server_url),
            ocr_server_headers: if cfg.ocr_server_headers.len() == 0 {
                None
            } else {
                Some(headers_by_name(&cfg.ocr_server_headers))
            },
            tessdata_path: types::clone_option(&cfg.tessdata_path),
            max_pages: Some(cfg.max_pages as u32),
            target_pages: types::clone_option(&cfg.target_pages),
            dpi: Some(cfg.dpi),
            output_format: Some(output_format_name(cfg.output_format)),
            preserve_very_small_text: Some(cfg.preserve_very_small_text),
            password: types::clone_option(&cfg.password),
            quiet: Some(cfg.quiet),
            num_workers: Some(cfg.num_workers as u32),
            image_mode: Some(image_mode_name(cfg.image_mode)),
            extract_links: Some(cfg.extract_links),
        }
    }
}

/// Whether no later header has the name of the header `i`.
pub open spec fn is_last_of_name(v: Seq<(String, String)>, i: int) -> bool {
    forall|j: int| i < j < v.len() ==> (#[trigger] v[j]).0@ != v[i].0@
}

/// Those of the first `n` headers that are the last of their name.
pub open spec fn headers_upto(v: Seq<(String, String)>, n: int) -> Seq<(String, String)>
    decreases n,
{
    if n <= 0 {
        seq![]
    } else if is_last_of_name(v, n - 1) {
        headers_upto(v, n - 1).push(v[n - 1])
    } else {
        headers_upto(v, n - 1)
    }
}

/// One header for every name: the last one.
pub open spec fn by_name(v: Seq<(String, String)>) -> Seq<(String, String)> {
    headers_upto(v, v.len() as int)
}

/// Whether no name of a header repeats.
pub open spec fn names_differ(v: Seq<(String, String)>) -> bool {
    forall|i: int, j: int|
        0 <= i < j < v.len() ==> (#[trigger] v[i]).0@ != (#[trigger] v[j]).0@
}

/// Whether `h` is the header `k` of `v`, and the last of its name.
pub open spec fn stands_at(v: Seq<(String, String)>, h: (String, String), k: int) -> bool {
    0 <= k < v.len() && v[k] == h && is_last_of_name(v, k)
}

/// Whether `h` is one of the first `n` headers of `v`, and the last of its name.
pub open spec fn comes_from(v: Seq<(String, String)>, h: (String, String), n: int) -> bool {
    exists|k: int| k < n && #[trigger] stands_at(v, h, k)
}

proof fn lemma_headers_upto(v: Seq<(String, String)>, n: int)
    requires
        0 <= n <= v.len(),
    ensures
        names_differ(headers_upto(v, n)),
        forall|i: int|
            0 <= i < headers_upto(v, n).len() ==> comes_from(
                v,
                #[trigger] headers_upto(v, n)[i],
                n,
            ),
        forall|k: int|
            0 <= k < n && is_last_of_name(v, k) ==> headers_upto(v, n).contains(#[trigger] v[k]),
    decreases n,
{
    if n > 0 {
        lemma_headers_upto(v, n - 1);
        let before = headers_upto(v, n - 1);
        let after = headers_upto(v, n);
        assert forall|i: int| 0 <= i < after.len() implies comes_from(
            v,
            #[trigger] after[i],
            n,
        ) by {
            if i < before.len() {
                assert(after[i] == before[i]);
                assert(comes_from(v, before[i], n - 1));
                let k = choose|k: int| k < n - 1 && #[trigger] stands_at(v, before[i], k);
                assert(stands_at(v, after[i], k));
            } else {
                assert(stands_at(v, after[i], n - 1));
            }
        }
        assert forall|i: int, j: int| 0 <= i < j < after.len() implies (#[trigger] after[i]).0@
            != (#[trigger] after[j]).0@ by {
            assert(after[i] == before[i]);
            if j < before.len() {
                assert(after[j] == before[j]);
            } else {
                assert(comes_from(v, before[i], n - 1));
                let k = choose|k: int| k < n - 1 && #[trigger] stands_at(v, before[i], k);
                assert(v[n - 1].0@ != v[k].0@);
            }
        }
        assert forall|k: int| 0 <= k < n && is_last_of_name(v, k) implies after.contains(
            #[trigger] v[k],
        ) by {
            if k < n - 1 {
                assert(before.contains(v[k]));
                let m = choose|m: int| 0 <= m < before.len() && before[m] == v[k];
                assert(after[m] == v[k]);
            } else {
                assert(after.last() == v[k]);
            }
        }
    }
}

proof fn lemma_all_headers(v: Seq<(String, String)>, n: int)
    requires
        0 <= n <= v.len(),
        names_differ(v),
    ensures
        headers_upto(v, n) == v.take(n),
    decreases n,
{
    if n > 0 {
        lemma_all_headers(v, n - 1);
        assert forall|j: int| n - 1 < j < v.len() implies (#[trigger] v[j]).0@ != v[n - 1].0@ by {
            assert(v[n - 1].0@ != v[j].0@);
        }
        assert(v.take(n) =~= v.take(n - 1).push(v[n - 1]));
    } else {
        assert(v.take(n) =~= seq![]);
    }
}

/// Headers by name hold every name once, with the last value that it was given; headers whose
/// names do not repeat stay as they are.
pub proof fn law_headers_by_name(v: Seq<(String, String)>)
    ensures
        names_differ(by_name(v)),
        forall|k: int|
            0 <= k < v.len() && is_last_of_name(v, k) ==> by_name(v).contains(#[trigger] v[k]),
        forall|i: int|
            0 <= i < by_name(v).len() ==> comes_from(
                v,
                #[trigger] by_name(v)[i],
                v.len() as int,
            ),
        names_differ(v) ==> by_name(v) == v,
        by_name(by_name(v)) == by_name(v),
{
    lemma_headers_upto(v, v.len() as int);
    let w = by_name(v);
    lemma_all_headers(w, w.len() as int);
    assert(w.take(w.len() as int) =~= w);
    if names_differ(v) {
        lemma_all_headers(v, v.len() as int);
        assert(v.take(v.len() as int) =~= v);
    }
}

fn last_of_name(v: &Vec<(String, String)>, i: usize) -> (r: bool)
    requires
        i < v@.len(),
    ensures
        r == is_last_of_name(v@, i as int),
{
    let n: usize = v.len();
    let mut j: usize = i + 1;
    while j < n
        invariant
            i < j <= n == v@.len(),
            forall|k: int| i < k < j ==> (#[trigger] v@[k]).0@ != v@[i as int].0@,
        decreases n - j,
    {
        if text::str_eq(v[j].0.as_str(), v[i].0.as_str()) {
            return false;
        }
        j = j + 1;
    }
    true
}

/// One header for every name: the last one.
pub fn headers_by_name(v: &Vec<(String, String)>) -> (r: Vec<(String, String)>)
    ensures
        r@ == by_name(v@),
        names_differ(r@),
        v@.len() > 0 ==> r@.len() > 0,
{
    let mut out: Vec<(String, String)> = Vec::new();
    let mut i: usize = 0;
    while i < v.len()
        invariant
            i <= v@.len(),
            out@ == headers_upto(v@, i as int),
        decreases v.len() - i,
    {
        if last_of_name(v, i) {
            out.push((v[i].0.clone(), v[i].1.clone()));
        }
        i = i + 1;
    }
    proof {
        law_headers_by_name(v@);
        if v@.len() > 0 {
            assert(is_last_of_name(v@, v@.len() - 1));
            assert(by_name(v@).contains(v@[v@.len() - 1]));
        }
    }
    out
}

// ---------------------------------------------------------------------------
// Text
// ---------------------------------------------------------------------------

/// Full confidence, in thousandths.
pub const FULL_CONFIDENCE: i32 = 1_000;

/// A text item as callers give and get it.
#[derive(Clone, Debug)]
pub struct JsTextItem {
    pub text: String,
    pub x: i32,
    pub y: i32,
    pub width: i32,
    pub height: i32,
    pub font_name: Option<String>,
    pub font_size: Option<i32>,
    pub confidence: Option<i32>,
    pub rotation: Option<i32>,
}

/// The item that a caller gives.
pub open spec fn item_given(j: JsTextItem) -> ItemView {
    ItemView {
        rotation: given(j.rotation, 0) as int,
        font_name: types::option_text(j.font_name),
        font_size: j.font_size,
        confidence: j.confidence,
        ..types::plain_item(
            j.text@,
            j.x as int,
            j.y as int,
            j.width as int,
            j.height as int,
        )
    }
}

/// Whether an item that a caller gets is the given one. Text that was not recognized
/// has full confidence.
pub open spec fn is_item_for(j: JsTextItem, it: TextItem) -> bool {
    &&& j.text@ == it.text@
    &&& j.x == it.x && j.y == it.y && j.width == it.width && j.height == it.height
    &&& j.rotation == Some(it.rotation)
    &&& types::option_text(j.font_name) == types::option_text(it.font_name)
    &&& j.font_size == it.font_size
    &&& j.confidence == Some(given(it.confidence, FULL_CONFIDENCE))
}

impl JsTextItem {
    /// The item that a caller gives.
    pub fn to_rust(&self) -> (r: TextItem)
        ensures
            r@ == item_given(*self),
    {
        let mut it: TextItem = TextItem::plain(
            self.text.clone(),
            self.x,
            self.y,
            self.width,
            self.height,
        );
        it.rotation = match self.rotation {
            Some(v) => v,
            None => 0,
        };
        it.font_name = types::clone_option(&self.font_name);
        it.font_size = self.font_size;
        it.confidence = self.confidence;
        it
    }

    /// An item as a caller gets it.
    pub fn from_rust(item: &TextItem) -> (r: JsTextItem)
        ensures
            is_item_for(r, *item),
    {
        JsTextItem {
            text: item.text.clone(),
            x: item.x,
            y: item.y,
            width: item.width,
            height: item.height,
            rotation: Some(item.rotation),
            font_name: types::clone_option(&item.font_name),
            font_size: item.font_size,
            confidence: match item.confidence {
                Some(c) => Some(c),
                None => Some(FULL_CONFIDENCE),
            },
        }
    }
}

/// An item that a caller gives and gets back is the same, but that its rotation and its
/// confidence are always given.
pub proof fn law_items_come_back(j: JsTextItem, it: TextItem, back: JsTextItem)
    requires
        it@ == item_given(j),
        is_item_for(back, it),
    ensures
        back.text@ == j.text@,
        back.x == j.x && back.y == j.y && back.width == j.width && back.height == j.height,
        types::option_text(back.font_name) == types::option_text(j.font_name),
        back.font_size == j.font_size,
        back.rotation == Some(given(j.rotation, 0)),
        back.confidence == Some(given(j.confidence, FULL_CONFIDENCE)),
{
    assert(it@.x == j.x && it@.y == j.y && it@.width == j.width && it@.height == j.height);
}

// ---------------------------------------------------------------------------
// Graphics
// ---------------------------------------------------------------------------

/// A graphic as a caller gives it. What is not given is zero, and a path that is filled
/// or stroked in an unknown color has an empty one.
#[derive(Clone, Debug)]
pub struct JsGraphic {
    pub kind: String,
    pub x1: Option<i32>,
    pub y1: Option<i32>,
    pub x2: Option<i32>,
    pub y2: Option<i32>,
    pub x: Option<i32>,
    pub y: Option<i32>,
    pub width: Option<i32>,
    pub height: Option<i32>,
    pub has_fill: Option<bool>,
    pub has_stroke: Option<bool>,
    pub fill_color: Option<String>,
    pub stroke_color: Option<String>,
    pub line_width: Option<i32>,
}

/// A color that is used or not, and may be unknown where it is used.
pub open spec fn paint(used: Option<bool>, color: Option<String>) -> Option<Seq<char>> {
    if used == Some(true) {
        match color {
            Some(c) => Some(c@),
            None => Some(seq![]),
        }
    } else {
        None
    }
}

/// The graphic that a caller gives. There is none of another kind than a stroke or a
/// rectangle.
pub open spec fn graphic_given(j: JsGraphic) -> Option<GraphicView> {
    if j.kind@ == "stroke"@ {
        Some(
            GraphicView::Stroke {
                x1: given(j.x1, 0) as int,
                y1: given(j.y1, 0) as int,
                x2: given(j.x2, 0) as int,
                y2: given(j.y2, 0) as int,
                color: types::option_text(j.stroke_color),
                width: given(j.line_width, 0) as int,
            },
        )
    } else if j.kind@ == "rect"@ {
        Some(
            GraphicView::Rect {
                bbox: Rect {
                    x: given(j.x, 0),
                    y: given(j.y, 0),
                    width: given(j.width, 0),
                    height: given(j.height, 0),
                },
                fill: paint(j.has_fill, j.fill_color),
                stroke: paint(j.has_stroke, j.stroke_color),
            },
        )
    } else {
        None
    }
}

fn or_zero(v: Option<i32>) -> (r: i32)
    ensures
        r == given(v, 0),
{
    match v {
        Some(x) => x,
        None => 0,
    }
}

fn paint_string(used: Option<bool>, color: &Option<String>) -> (r: Option<String>)
    ensures
        types::option_text(r) == paint(used, *color),
{
    let on: bool = match used {
        Some(b) => b,
        None => false,
    };
    if !on {
        return None;
    }
    match color {
        Some(c) => Some(c.clone()),
        None => {
            let empty: String = String::new();
            proof {
                assert(empty@ =~= seq![]);
            }
            Some(empty)
        },
    }
}

impl JsGraphic {
    /// The graphic that a caller gives, if it is a stroke or a rectangle.
    pub fn to_rust(&self) -> (r: Option<GraphicPrimitive>)
        ensures
            match r {
                Some(g) => graphic_given(*self) == Some(g@),
                None => graphic_given(*self) is None,
            },
    {
        if text::str_eq(self.kind.as_str(), "stroke") {
            Some(
                GraphicPrimitive::Stroke {
                    x1: or_zero(self.x1),
                    y1: or_zero(self.y1),
                    x2: or_zero(self.x2),
                    y2: or_zero(self.y2),
                    color: types::clone_option(&self.stroke_color),
                    width: or_zero(self.line_width),
                },
            )
        } else if text::str_eq(self.kind.as_str(), "rect") {
            Some(
                GraphicPrimitive::Rect {
                    bbox: Rect {
                        x: or_zero(self.x),
                        y: or_zero(self.y),
                        width: or_zero(self.width),
                        height: or_zero(self.height),
                    },
                    fill: paint_string(self.has_fill, &self.fill_color),
                    stroke: paint_string(self.has_stroke, &self.stroke_color),
                },
            )
        } else {
            None
        }
    }
}

// ---------------------------------------------------------------------------
// Pages
// ---------------------------------------------------------------------------

/// A page as a caller gives it.
#[derive(Clone, Debug)]
pub struct JsPageInput {
    pub page_number: u32,
    pub page_width: i32,
    pub page_height: i32,
    pub text_items: Vec<JsTextItem>,
    pub graphics: Option<Vec<JsGraphic>>,
}

/// The items that a caller gives.
pub open spec fn items_given(v: Seq<JsTextItem>) -> Seq<ItemView> {
    Seq::new(v.len(), |i: int| item_given(v[i]))
}

/// The graphics that a caller gives among the first `n`, without those of other kinds
/// than strokes and rectangles.
pub open spec fn graphics_given(v: Seq<JsGraphic>, n: int) -> Seq<GraphicView>
    decreases n,
{
    if n <= 0 {
        seq![]
    } else {
        match graphic_given(v[n - 1]) {
            Some(g) => graphics_given(v, n - 1).push(g),
            None => graphics_given(v, n - 1),
        }
    }
}

impl JsPageInput {
    /// The page that a caller gives. It has no structure and no images.
    pub fn to_rust(&self) -> (r: Page)
        ensures
            r.page_number == self.page_number,
            r.page_width == self.page_width,
            r.page_height == self.page_height,
            types::item_views(r.text_items@) == items_given(self.text_items@),
            page_parts::graphic_views(r.graphics@) == match self.graphics {
                Some(gs) => graphics_given(gs@, gs@.len() as int),
                None => seq![],
            },
            r.struct_nodes@.len() == 0,
            r.image_refs@.len() == 0,
    {
        let mut items: Vec<TextItem> = Vec::new();
        let mut i: usize = 0;
        while i < self.text_items.len()
            invariant
                i <= self.text_items@.len(),
                items@.len() == i,
                forall|k: int|
                    0 <= k < i ==> (#[trigger] items@[k])@ == item_given(self.text_items@[k]),
            decreases self.text_items.len() - i,
        {
            items.push(self.text_items[i].to_rust());
            i = i + 1;
        }
        proof {
            assert(types::item_views(items@) =~= items_given(self.text_items@));
        }
        let mut graphics: Vec<GraphicPrimitive> = Vec::new();
        proof {
            assert(page_parts::graphic_views(graphics@) =~= seq![]);
        }
        match &self.graphics {
            Some(gs) => {
                let mut k: usize = 0;
                while k < gs.len()
                    invariant
                        k <= gs@.len(),
                        page_parts::graphic_views(graphics@) == graphics_given(gs@, k as int),
                    decreases gs.len() - k,
                {
                    match gs[k].to_rust() {
                        Some(g) => {
                            let ghost before = page_parts::graphic_views(graphics@);
                            proof {
                                assert(page_parts::graphic_views(graphics@.push(g))
                                    =~= before.push(g@));
                            }
                            graphics.push(g);
                        },
                        None => {},
                    }
                    k = k + 1;
                }
            },
            None => {},
        }
        Page {
            page_number: self.page_number as usize,
            page_width: self.page_width,
            page_height: self.page_height,
            text_items: items,
            graphics,
            struct_nodes: Vec::new(),
            image_refs: Vec::new(),
        }
    }
}

/// A parsed page as a caller gets it.
#[derive(Clone, Debug)]
pub struct JsParsedPage {
    pub page_num: u32,
    pub width: i32,
    pub height: i32,
    pub text: String,
    pub text_items: Vec<JsTextItem>,
}

/// Whether a page that a caller gets is the given one.
pub open spec fn is_page_for(j: JsParsedPage, p: ParsedPage) -> bool {
    &&& j.page_num == p.page_number as u32
    &&& j.width == p.page_width && j.height == p.page_height
    &&& j.text@ == p.text@
    &&& j.text_items@.len() == p.text_items@.len()
    &&& forall|i: int|
        0 <= i < j.text_items@.len() ==> is_item_for(
            #[trigger] j.text_items@[i],
            p.text_items@[i],
        )
}

impl JsParsedPage {
    /// A page as a caller gets it.
    pub fn from_rust(page: &ParsedPage) -> (r: JsParsedPage)
        ensures
            is_page_for(r, *page),
    {
        let mut items: Vec<JsTextItem> = Vec::new();
        let mut i: usize = 0;
        while i < page.text_items.len()
            invariant
                i <= page.text_items@.len(),
                items@.len() == i,
                forall|k: int|
                    0 <= k < i ==> is_item_for(#[trigger] items@[k], page.text_items@[k]),
            decreases page.text_items.len() - i,
        {
            items.push(JsTextItem::from_rust(&page.text_items[i]));
            i = i + 1;
        }
        JsParsedPage {
            page_num: page.page_number as u32,
            width: page.page_width,
            height: page.page_height,
            text: page.text.clone(),
            text_items: items,
        }
    }
}

/// An image as a caller gets it.
#[derive(Clone, Debug)]
pub struct JsExtractedImage {
    pub id: String,
    pub page: u32,
    pub format: String,
    pub bytes: Vec<u8>,
}

/// A parsed document as a caller gets it.
#[derive(Clone, Debug)]
pub struct JsParseResult {
    pub pages: Vec<JsParsedPage>,
    pub text: String,
    pub images: Vec<JsExtractedImage>,
}

/// Whether an image that a caller gets is the given one.
pub open spec fn is_image_for(j: JsExtractedImage, i: ExtractedImage) -> bool {
    j.id@ == i.id@ && j.page == i.page && j.format@ == i.format@ && j.bytes@ == i.bytes@
}

/// A copy of bytes.
pub fn clone_bytes(v: &Vec<u8>) -> (r: Vec<u8>)
    ensures
        r@ == v@,
{
    let mut out: Vec<u8> = Vec::new();
    let mut i: usize = 0;
    while i < v.len()
        invariant
            i <= v@.len(),
            out@ == v@.take(i as int),
        decreases v.len() - i,
    {
        proof {
            assert(v@.take(i + 1) =~= v@.take(i as int).push(v@[i as int]));
        }
        out.push(v[i]);
        i = i + 1;
    }
    proof {
        assert(out@ =~= v@);
    }
    out
}

impl JsParseResult {
    /// A parsed document as a caller gets it: its pages, its text and its images.
    pub fn from_rust(pages: &Vec<ParsedPage>, text: &str, images: &Vec<ExtractedImage>) -> (r:
        JsParseResult)
        ensures
            r.text@ == text@,
            r.pages@.len() == pages@.len(),
            forall|i: int|
                0 <= i < r.pages@.len() ==> is_page_for(#[trigger] r.pages@[i], pages@[i]),
            r.images@.len() == images@.len(),
            forall|i: int|
                0 <= i < r.images@.len() ==> is_image_for(#[trigger] r.images@[i], images@[i]),
    {
        let mut js_pages: Vec<JsParsedPage> = Vec::new();
        let mut i: usize = 0;
        while i < pages.len()
            invariant
                i <= pages@.len(),
                js_pages@.len() == i,
                forall|k: int| 0 <= k < i ==> is_page_for(#[trigger] js_pages@[k], pages@[k]),
            decreases pages.len() - i,
        {
            js_pages.push(JsParsedPage::from_rust(&pages[i]));
            i = i + 1;
        }
        let mut js_images: Vec<JsExtractedImage> = Vec::new();
        let mut k: usize = 0;
        while k < images.len()
            invariant
                k <= images@.len(),
                js_images@.len() == k,
                forall|m: int| 0 <= m < k ==> is_image_for(#[trigger] js_images@[m], images@[m]),
            decreases images.len() - k,
        {
            let img = &images[k];
            js_images.push(
                JsExtractedImage {
                    id: img.id.clone(),
                    page: img.page,
                    format: img.format.clone(),
                    bytes: clone_bytes(&img.bytes),
                },
            );
            k = k + 1;
        }
        JsParseResult { pages: js_pages, text: text::to_string(text), images: js_images }
    }

    /// The first page with a number, if there is one.
    pub fn get_page(&self, page_num: u32) -> (r: Option<usize>)
        ensures
            match r {
                Some(i) => i < self.pages@.len() && self.pages@[i as int].page_num == page_num
                    && forall|k: int| 0 <= k < i ==> (#[trigger] self.pages@[k]).page_num
                    != page_num,
                None => forall|k: int|
                    0 <= k < self.pages@.len() ==> (#[trigger] self.pages@[k]).page_num != page_num,
            },
    {
        let mut i: usize = 0;
        while i < self.pages.len()
            invariant
                i <= self.pages@.len(),
                forall|k: int| 0 <= k < i ==> (#[trigger] self.pages@[k]).page_num != page_num,
            decreases self.pages.len() - i,
        {
            if self.pages[i].page_num == page_num {
                return Some(i);
            }
            i = i + 1;
        }
        None
    }
}

// ---------------------------------------------------------------------------
// Screenshots
// ---------------------------------------------------------------------------

/// The numbers from 1 to `n`.
pub open spec fn first_pages(n: int) -> Seq<u32> {
    Seq::new(n as nat, |i: int| (i + 1) as u32)
}

/// The pages that screenshots were asked of, which is all of them where none are named.
pub open spec fn pages_asked(numbers: Option<Seq<u32>>, count: u32) -> Seq<u32> {
    match numbers {
        Some(v) => v,
        None => first_pages(count as int),
    }
}

/// What is reported of a page that does not exist.
pub open spec fn no_such_page(page: u32, count: u32) -> Seq<char> {
    "page "@ + numbers::decimal(page as nat) + " out of range (document has "@ + numbers::decimal(
        count as nat,
    ) + " pages)"@
}

fn no_page_message(page: u32, count: u32) -> (r: String)
    ensures
        r@ == no_such_page(page, count),
{
    let mut out: String = text::to_string("page ");
    out.append(numbers::decimal_of(page as u64).as_str());
    out.append(" out of range (document has ");
    out.append(numbers::decimal_of(count as u64).as_str());
    out.append(" pages)");
    out
}

/// The pages to take screenshots of. The first one that does not exist is an error.
pub fn screenshot_pages(page_numbers: Option<&Vec<u32>>, page_count: u32) -> (r: Result<
    Vec<u32>,
    String,
>)
    ensures
        ({
            let asked = pages_asked(page_parts::page_list(page_numbers), page_count);
            match r {
                Ok(v) => v@ == asked && forall|i: int|
                    0 <= i < asked.len() ==> 1 <= #[trigger] asked[i] <= page_count,
                Err(e) => exists|i: int|
                    0 <= i < asked.len() && !(1 <= #[trigger] asked[i] <= page_count) && (
                    forall|k: int| 0 <= k < i ==> 1 <= #[trigger] asked[k] <= page_count) && e@
                        == no_such_page(asked[i], page_count),
            }
        }),
{
    let mut out: Vec<u32> = Vec::new();
    let ghost asked = pages_asked(page_parts::page_list(page_numbers), page_count);
    match page_numbers {
        Some(v) => {
            let mut i: usize = 0;
            while i < v.len()
                invariant
                    i <= v@.len(),
                    asked == pages_asked(page_parts::page_list(page_numbers), page_count),
                    asked == v@,
                    out@ == asked.take(i as int),
                    forall|k: int| 0 <= k < i ==> 1 <= #[trigger] asked[k] <= page_count,
                decreases v.len() - i,
            {
                let p: u32 = v[i];
                if p < 1 || p > page_count {
                    proof {
                        assert(!(1 <= asked[i as int] <= page_count));
                    }
                    return Err(no_page_message(p, page_count));
                }
                proof {
                    assert(asked.take(i + 1) =~= asked.take(i as int).push(asked[i as int]));
                }
                out.push(p);
                i = i + 1;
            }
        },
        None => {
            let mut n: u32 = 0;
            while n < page_count
                invariant
                    n <= page_count,
                    asked == first_pages(page_count as int),
                    out@ == asked.take(n as int),
                decreases page_count - n,
            {
                proof {
                    assert(asked.take(n + 1) =~= asked.take(n as int).push(asked[n as int]));
                    assert(asked[n as int] == n + 1);
                }
                n = n + 1;
                out.push(n);
            }
        },
    }
    proof {
        assert(out@ =~= asked);
    }
    Ok(out)
}

/// A screenshot of a page as a caller gets it.
#[derive(Clone, Debug)]
pub struct JsScreenshotResult {
    pub page_num: u32,
    pub width: u32,
    pub height: u32,
    pub image_buffer: Vec<u8>,
}

impl JsScreenshotResult {
    /// The screenshot of a page with the given pixels of four bytes, which must fill it. What
    /// goes wrong when they are encoded is reported in words that the encoder chooses.
    pub fn of_pixels(page_num: u32, width: u32, height: u32, rgba: &Vec<u8>) -> (r: Result<
        JsScreenshotResult,
        String,
    >)
        requires
            rgba@.len() == 4 * width * height,
        ensures
            match r {
                Ok(s) => s.page_num == page_num && s.width == width && s.height == height
                    && png::png_of_rgba(rgba@, width, height) == Some(s.image_buffer@),
                Err(e) => png::png_of_rgba(rgba@, width, height) is None && text::starts(
                    e@,
                    "PNG encode failed: "@,
                ),
            },
    {
        match png::encode_png(rgba, width, height) {
            Ok(image_buffer) => Ok(JsScreenshotResult { page_num, width, height, image_buffer }),
            Err(e) => {
                let mut out: String = text::to_string("PNG encode failed: ");
                let ghost head = out@;
                out.append(e.message());
                proof {
                    assert(out@.subrange(0, head.len() as int) =~= head);
                }
                Err(out)
            },
        }
    }
}

// ---------------------------------------------------------------------------
// The parser
// ---------------------------------------------------------------------------

/// A parser with its settings.
pub struct LiteParse {
    config: LiteParseConfig,
}

impl LiteParse {
    /// The settings in use.
    pub closed spec fn settings(&self) -> LiteParseConfig {
        self.config
    }

    /// A parser with the settings that a caller gives, or with the defaults of a machine with
    /// the given number of cores.
    pub fn new(config: Option<JsLiteParseConfig>, cores: Option<usize>) -> (r: LiteParse)
        ensures
            match config {
                Some(js) => is_rust_for(r.settings(), js, cores),
                None => config::is_default(r.settings()) && r.settings().num_workers
                    == config::workers_for(cores),
            },
    {
        match config {
            Some(js) => LiteParse { config: js.into_rust(cores) },
            None => LiteParse { config: LiteParseConfig::for_cores(cores) },
        }
    }

    /// The settings in use, as a caller gets them.
    pub fn config(&self) -> (r: JsLiteParseConfig)
        ensures
            is_js_for(r, self.settings()),
    {
        JsLiteParseConfig::from_rust(&self.config)
    }
}

// ---------------------------------------------------------------------------
// How hard pages are to read
// ---------------------------------------------------------------------------

/// How hard a page is to read without recognition, as a caller gets it, in the units of
/// `PageComplexityStats`.
#[derive(Clone, Debug)]
pub struct JsPageComplexityStats {
    pub page_number: u32,
    pub text_length: u32,
    pub text_coverage: i32,
    pub has_substantial_images: bool,
    pub image_block_count: u32,
    pub image_coverage: i32,
    pub largest_image_coverage: i32,
    pub full_page_image: bool,
    pub uncovered_vector_area: Option<i64>,
    pub is_garbled: bool,
    pub page_area: i64,
    pub needs_ocr: bool,
    pub reasons: Vec<String>,
}

/// A copy of names.
pub fn clone_names(v: &Vec<String>) -> (r: Vec<String>)
    ensures
        r@ == v@,
{
    let mut out: Vec<String> = Vec::new();
    let mut i: usize = 0;
    while i < v.len()
        invariant
            i <= v@.len(),
            out@ == v@.take(i as int),
        decreases v.len() - i,
    {
        proof {
            assert(v@.take(i + 1) =~= v@.take(i as int).push(v@[i as int]));
        }
        out.push(v[i].clone());
        i = i + 1;
    }
    proof {
        assert(out@ =~= v@);
    }
    out
}

impl JsPageComplexityStats {
    /// What a caller gets of a page. Of the numbers that are counted, the lower 32 bits are
    /// kept.
    pub fn from_rust(stats: &PageComplexityStats) -> (r: JsPageComplexityStats)
        ensures
            r.page_number == stats.page_number as u32,
            r.text_length == stats.text_length as u32,
            r.text_coverage == stats.text_coverage,
            r.has_substantial_images == stats.has_substantial_images,
            r.image_block_count == stats.image_block_count as u32,
            r.image_coverage == stats.image_coverage,
            r.largest_image_coverage == stats.largest_image_coverage,
            r.full_page_image == stats.full_page_image,
            r.uncovered_vector_area == stats.uncovered_vector_area,
            r.is_garbled == stats.is_garbled,
            r.page_area == stats.page_area,
            r.needs_ocr == stats.needs_ocr,
            r.reasons@ == stats.reasons@,
    {
        JsPageComplexityStats {
            page_number: #[verifier::truncate] (stats.page_number as u32),
            text_length: #[verifier::truncate] (stats.text_length as u32),
            text_coverage: stats.text_coverage,
            has_substantial_images: stats.has_substantial_images,
            image_block_count: #[verifier::truncate] (stats.image_block_count as u32),
            image_coverage: stats.image_coverage,
            largest_image_coverage: stats.largest_image_coverage,
            full_page_image: stats.full_page_image,
            uncovered_vector_area: stats.uncovered_vector_area,
            is_garbled: stats.is_garbled,
            page_area: stats.page_area,
            needs_ocr: stats.needs_ocr,
            reasons: clone_names(&stats.reasons),
        }
    }
}

} // verus!
