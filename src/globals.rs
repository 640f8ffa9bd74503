//! Fixed names and formats shared by the library.
use vstd::prelude::*;

use crate::text::str_eq;

verus! {

/// The language codes the interface can be set to.
pub const SUPPORTED_LANGUAGE_ZH: &'static str = "zh-Hans";

pub const SUPPORTED_LANGUAGE_EN: &'static str = "en";

pub const DEFAULT_LANGUAGE: &'static str = "zh-Hans";

/// Default directory holding drafts.
pub const ZDOCS_PATH: &'static str = "/tmp/zdocs";

pub const APP_NAME: &'static str = "xdev";

/// Backup files are named `<prefix><unix seconds><suffix>`.
pub const BACKUP_FILE_PREFIX: &'static str = "hosts_backup_";

pub const BACKUP_FILE_SUFFIX: &'static str = ".txt";

/// A subscription block opens with `<start><url><suffix>` ...
pub const HOSTS_SUBSCRIPTION_START_MARKER: &'static str = "# === xdev hosts subscription: ";

/// ... and closes with `<end><url><suffix>`.
pub const HOSTS_SUBSCRIPTION_END_MARKER: &'static str = "# === 结束 xdev hosts subscription: ";

pub const HOSTS_SUBSCRIPTION_MARKER_SUFFIX: &'static str = " ===";

/// The comment line after the start marker is `<prefix><unix seconds><suffix>`.
pub const SUBSCRIPTION_TIME_PREFIX: &'static str = "# 订阅时间: ";

pub const SUBSCRIPTION_TIME_SUFFIX: &'static str = " (UTC timestamp)";

pub open spec fn is_supported_language(lang: Seq<char>) -> bool {
    lang == SUPPORTED_LANGUAGE_ZH@ || lang == SUPPORTED_LANGUAGE_EN@
}

/// The name of a language as shown to the user.
pub fn get_language_display_name(lang: &str) -> (r: &'static str)
    ensures
        lang@ == SUPPORTED_LANGUAGE_ZH@ ==> r@ == "简体中文"@,
        lang@ == SUPPORTED_LANGUAGE_EN@ ==> r@ == "English"@,
        !is_supported_language(lang@) ==> r@ == "Unknown"@,
{
    proof {
        reveal_strlit("zh-Hans");
        reveal_strlit("en");
        assert(SUPPORTED_LANGUAGE_ZH@.len() == 7);
        assert(SUPPORTED_LANGUAGE_EN@.len() == 2);
    }
    if str_eq(lang, SUPPORTED_LANGUAGE_ZH) {
        "简体中文"
    } else if str_eq(lang, SUPPORTED_LANGUAGE_EN) {
        "English"
    } else {
        "Unknown"
    }
}

/// Whether `lang` is one of the supported language codes.
pub fn validate_language(lang: &str) -> (r: bool)
    ensures
        r == is_supported_language(lang@),
{
    str_eq(lang, SUPPORTED_LANGUAGE_ZH) || str_eq(lang, SUPPORTED_LANGUAGE_EN)
}

/// The supported language codes, in order of preference.
pub fn get_supported_languages() -> (r: Vec<&'static str>)
    ensures
        r@.len() == 2,
        r@[0]@ == SUPPORTED_LANGUAGE_ZH@,
        r@[1]@ == SUPPORTED_LANGUAGE_EN@,
{
    let mut r: Vec<&'static str> = Vec::new();
    r.push(SUPPORTED_LANGUAGE_ZH);
    r.push(SUPPORTED_LANGUAGE_EN);
    r
}

} // verus!
