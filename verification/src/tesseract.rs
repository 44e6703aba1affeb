//! The built-in recognition engine: its languages, its data and its words.

use vstd::prelude::*;
use vstd::string::*;
use crate::numbers;
use crate::ocr_merge::{OcrResult, PixelBox};
use crate::text;

verus! {

/// Where language data is downloaded from.
pub open spec fn base_url() -> Seq<char> {
    "https://github.com/tesseract-ocr/tessdata_best/raw/main"@
}

/// The built-in recognition engine.
#[derive(Clone, Debug)]
pub struct TesseractOcrEngine {
    /// Where the language data is, if that is given.
    pub tessdata_path: Option<String>,
}

/// The engine's name for a language that is given by a short code, if the code is
/// known.
pub open spec fn long_code(s: Seq<char>) -> Option<Seq<char>> {
    if s == "en"@ {
        Some("eng"@)
    } else if s == "fr"@ {
        Some("fra"@)
    } else if s == "de"@ {
        Some("deu"@)
    } else if s == "es"@ {
        Some("spa"@)
    } else if s == "it"@ {
        Some("ita"@)
    } else if s == "pt"@ {
        Some("por"@)
    } else if s == "ru"@ {
        Some("rus"@)
    } else if s == "zh"@ || s == "zh-cn"@ {
        Some("chi_sim"@)
    } else if s == "zh-tw"@ {
        Some("chi_tra"@)
    } else if s == "ja"@ {
        Some("jpn"@)
    } else if s == "ko"@ {
        Some("kor"@)
    } else if s == "ar"@ {
        Some("ara"@)
    } else if s == "hi"@ {
        Some("hin"@)
    } else if s == "th"@ {
        Some("tha"@)
    } else if s == "vi"@ {
        Some("vie"@)
    } else {
        None
    }
}

/// The engine's name for a language. Case and white space around a short code do
/// not matter; other names stay as they are.
pub open spec fn language_name(lang: Seq<char>) -> Seq<char> {
    match long_code(text::trim_of(text::lower_text(lang))) {
        Some(s) => s,
        None => lang,
    }
}

fn known_code(s: &str) -> (r: Option<&'static str>)
    ensures
        match r {
            Some(t) => long_code(s@) == Some(t@),
            None => long_code(s@) is None,
        },
{
    if text::str_eq(s, "en") {
        Some("eng")
    } else if text::str_eq(s, "fr") {
        Some("fra")
    } else if text::str_eq(s, "de") {
        Some("deu")
    } else if text::str_eq(s, "es") {
        Some("spa")
    } else if text::str_eq(s, "it") {
        Some("ita")
    } else if text::str_eq(s, "pt") {
        Some("por")
    } else if text::str_eq(s, "ru") {
        Some("rus")
    } else if text::str_eq(s, "zh") || text::str_eq(s, "zh-cn") {
        Some("chi_sim")
    } else if text::str_eq(s, "zh-tw") {
        Some("chi_tra")
    } else if text::str_eq(s, "ja") {
        Some("jpn")
    } else if text::str_eq(s, "ko") {
        Some("kor")
    } else if text::str_eq(s, "ar") {
        Some("ara")
    } else if text::str_eq(s, "hi") {
        Some("hin")
    } else if text::str_eq(s, "th") {
        Some("tha")
    } else if text::str_eq(s, "vi") {
        Some("vie")
    } else {
        None
    }
}

/// The operating system, as far as the place of language data depends on it.
#[derive(Clone, Copy, Debug, PartialEq, Eq, Structural)]
pub enum Platform {
    MacOs,
    Linux,
    Windows,
    Other,
}

/// Where language data is by default, given the home directory, the application data
/// directory and the user profile, as far as they are known.
pub open spec fn default_dir(
    platform: Platform,
    home: Option<Seq<char>>,
    app_data: Option<Seq<char>>,
    profile: Option<Seq<char>>,
) -> Seq<char> {
    match (platform, home, app_data, profile) {
        (Platform::MacOs, Some(h), _, _) => h
            + "/Library/Application Support/tesseract-rs/tessdata"@,
        (Platform::Linux, Some(h), _, _) => h + "/.tesseract-rs/tessdata"@,
        (Platform::Windows, _, Some(a), _) => a + "\\tesseract-rs\\tessdata"@,
        (Platform::Windows, _, None, Some(p)) => p + "\\AppData\\Roaming"@
            + "\\tesseract-rs\\tessdata"@,
        _ => "tessdata"@,
    }
}

/// The characters of an optional text.
pub open spec fn option_chars(s: Option<&str>) -> Option<Seq<char>> {
    match s {
        Some(t) => Some(t@),
        None => None,
    }
}

fn joined(a: &str, b: &str) -> (r: String)
    ensures
        r@ == a@ + b@,
{
    let mut out: String = text::to_string(a);
    out.append(b);
    out
}

/// Where language data is by default.
pub fn default_tessdata_dir(
    platform: Platform,
    home: Option<&str>,
    app_data: Option<&str>,
    profile: Option<&str>,
) -> (r: String)
    ensures
        r@ == default_dir(
            platform,
            option_chars(home),
            option_chars(app_data),
            option_chars(profile),
        ),
{
    match platform {
        Platform::MacOs => match home {
            Some(h) => joined(h, "/Library/Application Support/tesseract-rs/tessdata"),
            None => text::to_string("tessdata"),
        },
        Platform::Linux => match home {
            Some(h) => joined(h, "/.tesseract-rs/tessdata"),
            None => text::to_string("tessdata"),
        },
        Platform::Windows => match app_data {
            Some(a) => joined(a, "\\tesseract-rs\\tessdata"),
            None => match profile {
                Some(p) => joined(
                    joined(p, "\\AppData\\Roaming").as_str(),
                    "\\tesseract-rs\\tessdata",
                ),
                None => text::to_string("tessdata"),
            },
        },
        Platform::Other => text::to_string("tessdata"),
    }
}

/// Where language data is: where the settings say, or else where the environment
/// says, or else the default.
pub open spec fn data_dir(
    configured: Option<Seq<char>>,
    prefix: Option<Seq<char>>,
    default: Seq<char>,
) -> Seq<char> {
    match configured {
        Some(p) => p,
        None => match prefix {
            Some(p) => p,
            None => default,
        },
    }
}

/// The name of the file with the data of a language.
pub open spec fn data_file(language: Seq<char>) -> Seq<char> {
    language + ".traineddata"@
}

/// The name of the file with the data of a language.
pub fn traineddata_file(language: &str) -> (r: String)
    ensures
        r@ == data_file(language@),
{
    joined(language, ".traineddata")
}

/// Where the data of a language is downloaded from.
pub fn traineddata_url(language: &str) -> (r: String)
    ensures
        r@ == base_url() + "/"@ + data_file(language@),
{
    let mut out: String = text::to_string(
        "https://github.com/tesseract-ocr/tessdata_best/raw/main",
    );
    out.append("/");
    out.append(traineddata_file(language).as_str());
    out
}

/// The name of the file that the data of a language is written to before it is
/// complete, by the process with the given number.
pub fn partial_file(language: &str, process: u32) -> (r: String)
    ensures
        r@ == data_file(language@) + ".tmp."@ + numbers::decimal(process as nat),
{
    let mut out: String = traineddata_file(language);
    out.append(".tmp.");
    out.append(numbers::decimal_of(process as u64).as_str());
    out
}

/// What is reported when the data of a language cannot be downloaded.
pub open spec fn failed_download(
    language: Seq<char>,
    url: Seq<char>,
    status: Seq<char>,
) -> Seq<char> {
    "failed to download tessdata for language \""@ + language + "\" from "@ + url + ": HTTP "@
        + status
}

/// What is reported when the data of a language cannot be downloaded.
pub fn download_failure(language: &str, url: &str, status: &str) -> (r: String)
    ensures
        r@ == failed_download(language@, url@, status@),
{
    let mut out: String = text::to_string("failed to download tessdata for language \"");
    out.append(language);
    out.append("\" from ");
    out.append(url);
    out.append(": HTTP ");
    out.append(status);
    out
}

/// A number of whole pixels in thousandths, cut to what fits.
pub open spec fn pixels(v: i32) -> int {
    if v > 2_147_483 {
        i32::MAX as int
    } else if v < -2_147_483 {
        i32::MIN as int
    } else {
        1000 * v
    }
}

fn whole_pixels(v: i32) -> (r: i32)
    ensures
        r == pixels(v),
{
    if v > 2_147_483 {
        i32::MAX
    } else if v < -2_147_483 {
        i32::MIN
    } else {
        1000 * v
    }
}

/// A word that the engine found, if its confidence is 30 percent or more and it is
/// not blank. The edges are given in pixels, the confidence in millionths.
pub fn word_result(
    word: String,
    left: i32,
    top: i32,
    right: i32,
    bottom: i32,
    confidence: i32,
) -> (r: Option<OcrResult>)
    ensures
        match r {
            Some(o) => confidence >= 300_000 && !text::is_blank(word@) && o.text@ == word@ && o.bbox
                == (PixelBox {
                left: pixels(left) as i32,
                top: pixels(top) as i32,
                right: pixels(right) as i32,
                bottom: pixels(bottom) as i32,
            }) && o.polygon is None && o.confidence == confidence,
            None => confidence < 300_000 || text::is_blank(word@),
        },
{
    if confidence < 300_000 || text::blank(word.as_str()) {
        return None;
    }
    Some(
        OcrResult {
            text: word,
            bbox: PixelBox {
                left: whole_pixels(left),
                top: whole_pixels(top),
                right: whole_pixels(right),
                bottom: whole_pixels(bottom),
            },
            polygon: None,
            confidence,
        },
    )
}

impl TesseractOcrEngine {
    /// An engine with its language data at the given place, or at the default one.
    pub fn new(tessdata_path: Option<String>) -> (r: TesseractOcrEngine)
        ensures
            r.tessdata_path == tessdata_path,
    {
        TesseractOcrEngine { tessdata_path }
    }

    /// What the engine is called.
    pub fn name(&self) -> (r: &'static str)
        ensures
            r@ == "tesseract"@,
    {
        "tesseract"
    }

    /// The engine's name for a language. Case and white space around a short code do
    /// not matter; other names stay as they are.
    pub fn normalize_language<'a>(lang: &'a str) -> (r: &'a str)
        ensures
            r@ == language_name(lang@),
    {
        let lower: String = text::lowercase_str(lang);
        match known_code(text::trim(lower.as_str())) {
            Some(s) => s,
            None => lang,
        }
    }

    /// Where the engine's language data is, given what the environment says and the
    /// default.
    pub fn data_path(&self, prefix: Option<&str>, default: &str) -> (r: String)
        ensures
            r@ == data_dir(
                crate::types::option_text(self.tessdata_path),
                option_chars(prefix),
                default@,
            ),
    {
        match &self.tessdata_path {
            Some(p) => p.clone(),
            None => match prefix {
                Some(p) => text::to_string(p),
                None => text::to_string(default),
            },
        }
    }
}

/// The engine's name for a language stays as it is.
pub proof fn law_language_name_is_final(s: Seq<char>)
    ensures
        language_name(language_name(s)) == language_name(s),
{
    match long_code(text::trim_of(text::lower_text(s))) {
        Some(name) => {
            reveal_strlit("eng");
            reveal_strlit("fra");
            reveal_strlit("deu");
            reveal_strlit("spa");
            reveal_strlit("ita");
            reveal_strlit("por");
            reveal_strlit("rus");
            reveal_strlit("chi_sim");
            reveal_strlit("chi_tra");
            reveal_strlit("jpn");
            reveal_strlit("kor");
            reveal_strlit("ara");
            reveal_strlit("hin");
            reveal_strlit("tha");
            reveal_strlit("vie");
            lemma_name_stays(name);
        },
        None => {},
    }
}

proof fn lemma_name_stays(name: Seq<char>)
    requires
        name.len() == 3 || name.len() == 7,
        forall|i: int|
            0 <= i < name.len() ==> text::is_ascii_lower(#[trigger] name[i]) || name[i] == '_',
    ensures
        language_name(name) == name,
{
    assert(text::ascii_lower_text(name) =~= name);
    assert(text::is_ascii_lower(name[0]) || name[0] == '_');
    assert(text::is_ascii_lower(name.last()) || name.last() == '_');
    assert(text::all_ascii(name));
    assert(text::trim_of(name) == name);
    reveal_strlit("en");
    reveal_strlit("fr");
    reveal_strlit("de");
    reveal_strlit("es");
    reveal_strlit("it");
    reveal_strlit("pt");
    reveal_strlit("ru");
    reveal_strlit("zh");
    reveal_strlit("zh-cn");
    reveal_strlit("zh-tw");
    reveal_strlit("ja");
    reveal_strlit("ko");
    reveal_strlit("ar");
    reveal_strlit("hi");
    reveal_strlit("th");
    reveal_strlit("vi");
}

} // verus!
