use crate::resolution::path::join_path;
use crate::resolution::prefix::strings_view;
use vstd::prelude::*;

verus! {

/// The effective configuration.
#[derive(Clone, Debug)]
pub struct Config {
    pub core: CoreConfig,
    pub code_action: CodeActionConfig,
    pub completion: CompletionConfig,
    pub wiki: WikiConfig,
}

#[derive(Clone, Debug)]
pub struct CoreConfig {
    pub file_extensions: Vec<String>,
    pub heading_ids: HeadingIdsConfig,
    pub text_sync: TextSyncKind,
    pub title_from_heading: bool,
    pub extra_folders: Vec<String>,
    pub ignore: Vec<String>,
}

#[derive(Clone, Copy, Debug, PartialEq, Eq, Structural)]
pub struct HeadingIdsConfig {
    pub enable: bool,
}

#[derive(Clone, Copy, Debug, PartialEq, Eq, Structural)]
pub enum TextSyncKind {
    Full,
    Incremental,
}

#[derive(Clone, Debug)]
pub struct CodeActionConfig {
    pub toc: TocConfig,
    pub create_missing_file: CreateMissingFileConfig,
}

#[derive(Clone, Debug)]
pub struct TocConfig {
    pub enable: bool,
    pub levels: Vec<u8>,
}

#[derive(Clone, Copy, Debug, PartialEq, Eq, Structural)]
pub struct CreateMissingFileConfig {
    pub enable: bool,
}

#[derive(Clone, Copy, Debug, PartialEq, Eq, Structural)]
pub struct CompletionConfig {
    pub candidates: usize,
    pub wiki: WikiCompletionConfig,
}

#[derive(Clone, Copy, Debug, PartialEq, Eq, Structural)]
pub struct WikiCompletionConfig {
    pub style: WikiCompletionStyle,
}

#[derive(Clone, Copy, Debug, PartialEq, Eq, Structural)]
pub enum WikiCompletionStyle {
    TitleSlug,
    Title,
    FileStem,
    FilePathStem,
}

/// Settings of wiki-link resolution.
#[derive(Clone, Copy, Debug, PartialEq, Eq, Structural)]
pub struct WikiConfig {
    /// Resolve a wiki-link target that matches nothing else by the unique document
    /// whose file stem starts with it.
    pub obsidian_prefix: bool,
}

pub open spec fn default_extensions() -> Seq<Seq<char>> {
    seq![seq!['m', 'd'], seq!['m', 'a', 'r', 'k', 'd', 'o', 'w', 'n']]
}

pub open spec fn default_toc_levels() -> Seq<u8> {
    seq![1u8, 2u8, 3u8, 4u8, 5u8, 6u8]
}

fn default_extensions_vec() -> (r: Vec<String>)
    ensures
        strings_view(r@) == default_extensions(),
{
    let md = String::from_str("md");
    let markdown = String::from_str("markdown");
    proof {
        reveal_strlit("md");
        reveal_strlit("markdown");
    }
    let mut r: Vec<String> = Vec::new();
    r.push(md);
    r.push(markdown);
    assert(strings_view(r@)[0] =~= default_extensions()[0]);
    assert(strings_view(r@)[1] =~= default_extensions()[1]);
    assert(strings_view(r@) =~= default_extensions());
    r
}

fn default_toc_vec() -> (r: Vec<u8>)
    ensures
        r@ == default_toc_levels(),
{
    let r: Vec<u8> = vec![1, 2, 3, 4, 5, 6];
    assert(r@ =~= default_toc_levels());
    r
}

impl Default for CoreConfig {
    fn default() -> (r: Self)
        ensures
            strings_view(r.file_extensions@) == default_extensions(),
            r.heading_ids.enable,
            r.text_sync == TextSyncKind::Full,
            r.title_from_heading,
            r.extra_folders@.len() == 0,
            r.ignore@.len() == 0,
    {
        CoreConfig {
            file_extensions: default_extensions_vec(),
            heading_ids: HeadingIdsConfig { enable: true },
            text_sync: TextSyncKind::Full,
            title_from_heading: true,
            extra_folders: Vec::new(),
            ignore: Vec::new(),
        }
    }
}

impl Default for TocConfig {
    fn default() -> (r: Self)
        ensures
            r.enable,
            r.levels@ == default_toc_levels(),
    {
        TocConfig { enable: true, levels: default_toc_vec() }
    }
}

impl Default for CodeActionConfig {
    fn default() -> (r: Self)
        ensures
            r.toc.enable,
            r.toc.levels@ == default_toc_levels(),
            r.create_missing_file.enable,
    {
        CodeActionConfig { toc: TocConfig::default(), create_missing_file: CreateMissingFileConfig { enable: true } }
    }
}

impl Default for WikiCompletionConfig {
    fn default() -> (r: Self)
        ensures
            r.style == WikiCompletionStyle::TitleSlug,
    {
        WikiCompletionConfig { style: WikiCompletionStyle::TitleSlug }
    }
}

impl Default for CompletionConfig {
    fn default() -> (r: Self)
        ensures
            r.candidates == 50,
            r.wiki.style == WikiCompletionStyle::TitleSlug,
    {
        CompletionConfig { candidates: 50, wiki: WikiCompletionConfig::default() }
    }
}

impl Default for WikiConfig {
    fn default() -> (r: Self)
        ensures
            !r.obsidian_prefix,
    {
        WikiConfig { obsidian_prefix: false }
    }
}

/// The default configuration.
pub open spec fn is_default_config(c: Config) -> bool {
    &&& strings_view(c.core.file_extensions@) == default_extensions()
    &&& c.core.heading_ids.enable
    &&& c.core.text_sync == TextSyncKind::Full
    &&& c.core.title_from_heading
    &&& c.core.extra_folders@.len() == 0
    &&& c.core.ignore@.len() == 0
    &&& c.code_action.toc.enable
    &&& c.code_action.toc.levels@ == default_toc_levels()
    &&& c.code_action.create_missing_file.enable
    &&& c.completion.candidates == 50
    &&& c.completion.wiki.style == WikiCompletionStyle::TitleSlug
    &&& !c.wiki.obsidian_prefix
}

impl Default for Config {
    fn default() -> (r: Self)
        ensures
            is_default_config(r),
    {
        Config {
            core: CoreConfig::default(),
            code_action: CodeActionConfig::default(),
            completion: CompletionConfig::default(),
            wiki: WikiConfig::default(),
        }
    }
}

/// Two configurations hold the same settings.
pub open spec fn config_same(a: Config, b: Config) -> bool {
    &&& strings_view(a.core.file_extensions@) == strings_view(b.core.file_extensions@)
    &&& a.core.heading_ids == b.core.heading_ids
    &&& a.core.text_sync == b.core.text_sync
    &&& a.core.title_from_heading == b.core.title_from_heading
    &&& strings_view(a.core.extra_folders@) == strings_view(b.core.extra_folders@)
    &&& strings_view(a.core.ignore@) == strings_view(b.core.ignore@)
    &&& a.code_action.toc.enable == b.code_action.toc.enable
    &&& a.code_action.toc.levels@ == b.code_action.toc.levels@
    &&& a.code_action.create_missing_file == b.code_action.create_missing_file
    &&& a.completion == b.completion
    &&& a.wiki == b.wiki
}

/// A copy of a list of strings.
pub fn copy_strings(v: &Vec<String>) -> (r: Vec<String>)
    ensures
        strings_view(r@) == strings_view(v@),
{
    let mut r: Vec<String> = Vec::new();
    let mut i: usize = 0;
    while i < v.len()
        invariant
            i <= v@.len(),
            strings_view(r@) == strings_view(v@.take(i as int)),
        decreases v@.len() - i,
    {
        let ghost before = r@;
        r.push(v[i].clone());
        assert(strings_view(r@) =~= strings_view(before).push(v@[i as int]@));
        assert(strings_view(v@.take(i + 1)) =~= strings_view(v@.take(i as int)).push(v@[i as int]@));
        i += 1;
    }
    assert(v@.take(i as int) =~= v@);
    r
}

fn copy_bytes(v: &Vec<u8>) -> (r: Vec<u8>)
    ensures
        r@ == v@,
{
    let mut r: Vec<u8> = Vec::new();
    let mut i: usize = 0;
    while i < v.len()
        invariant
            i <= v@.len(),
            r@ == v@.take(i as int),
        decreases v@.len() - i,
    {
        r.push(v[i]);
        assert(r@ =~= v@.take(i + 1));
        i += 1;
    }
    assert(v@.take(i as int) =~= v@);
    r
}

impl Config {
    /// A copy holding the same settings.
    pub fn duplicate(&self) -> (r: Config)
        ensures
            config_same(r, *self),
    {
        Config {
            core: CoreConfig {
                file_extensions: copy_strings(&self.core.file_extensions),
                heading_ids: self.core.heading_ids,
                text_sync: self.core.text_sync,
                title_from_heading: self.core.title_from_heading,
                extra_folders: copy_strings(&self.core.extra_folders),
                ignore: copy_strings(&self.core.ignore),
            },
            code_action: CodeActionConfig {
                toc: TocConfig { enable: self.code_action.toc.enable, levels: copy_bytes(&self.code_action.toc.levels) },
                create_missing_file: self.code_action.create_missing_file,
            },
            completion: self.completion,
            wiki: self.wiki,
        }
    }
}

/// Why a configuration could not be loaded.
#[derive(Debug)]
pub enum ConfigError {
    /// Reading a file failed; the text describes the failure.
    Io(String),
    ParseToml { path: String, message: String },
    Validation(String),
}

impl ConfigError {
    /// The text that describes the error.
    pub fn message(&self) -> (r: String)
        ensures
            match self {
                ConfigError::Io(m) => r@ == m@,
                ConfigError::ParseToml { path, message } => r@ == seq!['f', 'a', 'i', 'l', 'e', 'd', ' ', 't', 'o', ' ', 'p', 'a', 'r', 's', 'e', ' ', '`'] + path@ + seq!['`', ':', ' '] + message@,
                ConfigError::Validation(m) => r@ == m@,
            },
    {
        match self {
            ConfigError::Io(m) => m.clone(),
            ConfigError::ParseToml { path, message } => {
                let mut r = String::from_str("failed to parse `");
                proof {
                    reveal_strlit("failed to parse `");
                    reveal_strlit("`: ");
                }
                r.append(path.as_str());
                r.append("`: ");
                r.append(message.as_str());
                r
            },
            ConfigError::Validation(m) => m.clone(),
        }
    }
}

#[derive(Clone, Debug)]
pub struct PartialConfig {
    pub core: Option<PartialCoreConfig>,
    pub code_action: Option<PartialCodeActionConfig>,
    pub completion: Option<PartialCompletionConfig>,
    pub wiki: Option<PartialWikiConfig>,
}

#[derive(Clone, Debug)]
pub struct PartialCoreConfig {
    pub file_extensions: Option<Vec<String>>,
    pub heading_ids: Option<PartialHeadingIdsConfig>,
    pub text_sync: Option<TextSyncKind>,
    pub title_from_heading: Option<bool>,
    pub extra_folders: Option<Vec<String>>,
    pub ignore: Option<Vec<String>>,
}

#[derive(Clone, Copy, Debug, PartialEq, Eq, Structural)]
pub struct PartialHeadingIdsConfig {
    pub enable: Option<bool>,
}

#[derive(Clone, Debug)]
pub struct PartialCodeActionConfig {
    pub toc: Option<PartialTocConfig>,
    pub create_missing_file: Option<PartialCreateMissingFileConfig>,
}

#[derive(Clone, Debug)]
pub struct PartialTocConfig {
    pub enable: Option<bool>,
    pub levels: Option<Vec<u8>>,
}

#[derive(Clone, Copy, Debug, PartialEq, Eq, Structural)]
pub struct PartialCreateMissingFileConfig {
    pub enable: Option<bool>,
}

#[derive(Clone, Copy, Debug, PartialEq, Eq, Structural)]
pub struct PartialCompletionConfig {
    pub candidates: Option<usize>,
    pub wiki: Option<PartialWikiCompletionConfig>,
}

#[derive(Clone, Copy, Debug, PartialEq, Eq, Structural)]
pub struct PartialWikiCompletionConfig {
    pub style: Option<WikiCompletionStyle>,
}

#[derive(Clone, Copy, Debug, PartialEq, Eq, Structural)]
pub struct PartialWikiConfig {
    pub obsidian_prefix: Option<bool>,
}


impl Default for PartialConfig {
    fn default() -> (r: Self)
        ensures
            r.core is None && r.code_action is None && r.completion is None && r.wiki is None,
    {
        PartialConfig { core: None, code_action: None, completion: None, wiki: None }
    }
}

impl Default for PartialCoreConfig {
    fn default() -> (r: Self)
        ensures
            r.file_extensions is None && r.heading_ids is None && r.text_sync is None
                && r.title_from_heading is None && r.extra_folders is None && r.ignore is None,
    {
        PartialCoreConfig {
            file_extensions: None,
            heading_ids: None,
            text_sync: None,
            title_from_heading: None,
            extra_folders: None,
            ignore: None,
        }
    }
}

impl Default for PartialHeadingIdsConfig {
    fn default() -> (r: Self)
        ensures
            r.enable is None,
    {
        PartialHeadingIdsConfig { enable: None }
    }
}

impl Default for PartialCodeActionConfig {
    fn default() -> (r: Self)
        ensures
            r.toc is None && r.create_missing_file is None,
    {
        PartialCodeActionConfig { toc: None, create_missing_file: None }
    }
}

impl Default for PartialTocConfig {
    fn default() -> (r: Self)
        ensures
            r.enable is None && r.levels is None,
    {
        PartialTocConfig { enable: None, levels: None }
    }
}

impl Default for PartialCreateMissingFileConfig {
    fn default() -> (r: Self)
        ensures
            r.enable is None,
    {
        PartialCreateMissingFileConfig { enable: None }
    }
}

impl Default for PartialCompletionConfig {
    fn default() -> (r: Self)
        ensures
            r.candidates is None && r.wiki is None,
    {
        PartialCompletionConfig { candidates: None, wiki: None }
    }
}

impl Default for PartialWikiCompletionConfig {
    fn default() -> (r: Self)
        ensures
            r.style is None,
    {
        PartialWikiCompletionConfig { style: None }
    }
}

impl Default for PartialWikiConfig {
    fn default() -> (r: Self)
        ensures
            r.obsidian_prefix is None,
    {
        PartialWikiConfig { obsidian_prefix: None }
    }
}

/// `a`, or else `b`.
pub open spec fn or_else<T>(a: Option<T>, b: Option<T>) -> Option<T> {
    match a {
        Some(x) => Some(x),
        None => b,
    }
}

pub open spec fn unwrap_or<T>(a: Option<T>, d: T) -> T {
    match a {
        Some(x) => x,
        None => d,
    }
}

pub open spec fn opt_strings(o: Option<Vec<String>>) -> Option<Seq<Seq<char>>> {
    match o {
        Some(v) => Some(strings_view(v@)),
        None => None,
    }
}

pub open spec fn opt_bytes(o: Option<Vec<u8>>) -> Option<Seq<u8>> {
    match o {
        Some(v) => Some(v@),
        None => None,
    }
}

/// The setting of a nested partial: `None` where the partial itself is absent.
pub open spec fn heading_ids_enable(o: Option<PartialHeadingIdsConfig>) -> Option<bool> {
    match o {
        Some(h) => h.enable,
        None => None,
    }
}

pub open spec fn toc_enable(o: Option<PartialTocConfig>) -> Option<bool> {
    match o {
        Some(t) => t.enable,
        None => None,
    }
}

pub open spec fn toc_levels(o: Option<PartialTocConfig>) -> Option<Seq<u8>> {
    match o {
        Some(t) => opt_bytes(t.levels),
        None => None,
    }
}

pub open spec fn create_enable(o: Option<PartialCreateMissingFileConfig>) -> Option<bool> {
    match o {
        Some(c) => c.enable,
        None => None,
    }
}

pub open spec fn completion_style(o: Option<PartialWikiCompletionConfig>) -> Option<WikiCompletionStyle> {
    match o {
        Some(w) => w.style,
        None => None,
    }
}

/// `r` takes each setting of `high`, falling back to `low`.
pub open spec fn core_merged(r: PartialCoreConfig, high: PartialCoreConfig, low: PartialCoreConfig) -> bool {
    &&& opt_strings(r.file_extensions) == or_else(opt_strings(high.file_extensions), opt_strings(low.file_extensions))
    &&& r.heading_ids == Some(PartialHeadingIdsConfig {
        enable: or_else(heading_ids_enable(high.heading_ids), heading_ids_enable(low.heading_ids)),
    })
    &&& r.text_sync == or_else(high.text_sync, low.text_sync)
    &&& r.title_from_heading == or_else(high.title_from_heading, low.title_from_heading)
    &&& opt_strings(r.extra_folders) == or_else(opt_strings(high.extra_folders), opt_strings(low.extra_folders))
    &&& opt_strings(r.ignore) == or_else(opt_strings(high.ignore), opt_strings(low.ignore))
}

pub open spec fn code_action_merged(r: PartialCodeActionConfig, high: PartialCodeActionConfig, low: PartialCodeActionConfig) -> bool {
    &&& r.toc matches Some(t) && t.enable == or_else(toc_enable(high.toc), toc_enable(low.toc))
        && opt_bytes(t.levels) == or_else(toc_levels(high.toc), toc_levels(low.toc))
    &&& r.create_missing_file == Some(PartialCreateMissingFileConfig {
        enable: or_else(create_enable(high.create_missing_file), create_enable(low.create_missing_file)),
    })
}

pub open spec fn completion_merged(r: PartialCompletionConfig, high: PartialCompletionConfig, low: PartialCompletionConfig) -> bool {
    &&& r.candidates == or_else(high.candidates, low.candidates)
    &&& r.wiki == Some(PartialWikiCompletionConfig {
        style: or_else(completion_style(high.wiki), completion_style(low.wiki)),
    })
}

pub open spec fn wiki_prefix(o: Option<PartialWikiConfig>) -> Option<bool> {
    match o {
        Some(w) => w.obsidian_prefix,
        None => None,
    }
}

fn or_strings(a: Option<Vec<String>>, b: Option<Vec<String>>) -> (r: Option<Vec<String>>)
    ensures
        opt_strings(r) == or_else(opt_strings(a), opt_strings(b)),
{
    match a {
        Some(v) => Some(v),
        None => b,
    }
}

/// Merges two partial core sections, the first taking precedence.
pub fn merge_core(high: PartialCoreConfig, low: PartialCoreConfig) -> (r: PartialCoreConfig)
    ensures
        core_merged(r, high, low),
{
    let high_ids = match high.heading_ids {
        Some(h) => h.enable,
        None => None,
    };
    let low_ids = match low.heading_ids {
        Some(h) => h.enable,
        None => None,
    };
    PartialCoreConfig {
        file_extensions: or_strings(high.file_extensions, low.file_extensions),
        heading_ids: Some(PartialHeadingIdsConfig { enable: if high_ids.is_some() { high_ids } else { low_ids } }),
        text_sync: if high.text_sync.is_some() { high.text_sync } else { low.text_sync },
        title_from_heading: if high.title_from_heading.is_some() {
            high.title_from_heading
        } else {
            low.title_from_heading
        },
        extra_folders: or_strings(high.extra_folders, low.extra_folders),
        ignore: or_strings(high.ignore, low.ignore),
    }
}

/// Merges two partial code-action sections, the first taking precedence.
pub fn merge_code_action(high: PartialCodeActionConfig, low: PartialCodeActionConfig) -> (r: PartialCodeActionConfig)
    ensures
        code_action_merged(r, high, low),
{
    let (high_enable, high_levels) = match high.toc {
        Some(t) => (t.enable, t.levels),
        None => (None, None),
    };
    let (low_enable, low_levels) = match low.toc {
        Some(t) => (t.enable, t.levels),
        None => (None, None),
    };
    let high_create = match high.create_missing_file {
        Some(c) => c.enable,
        None => None,
    };
    let low_create = match low.create_missing_file {
        Some(c) => c.enable,
        None => None,
    };
    let levels = match high_levels {
        Some(v) => Some(v),
        None => low_levels,
    };
    PartialCodeActionConfig {
        toc: Some(PartialTocConfig { enable: if high_enable.is_some() { high_enable } else { low_enable }, levels }),
        create_missing_file: Some(
            PartialCreateMissingFileConfig { enable: if high_create.is_some() { high_create } else { low_create } },
        ),
    }
}

/// Merges two partial completion sections, the first taking precedence.
pub fn merge_completion(high: PartialCompletionConfig, low: PartialCompletionConfig) -> (r: PartialCompletionConfig)
    ensures
        completion_merged(r, high, low),
{
    let high_style = match high.wiki {
        Some(w) => w.style,
        None => None,
    };
    let low_style = match low.wiki {
        Some(w) => w.style,
        None => None,
    };
    PartialCompletionConfig {
        candidates: if high.candidates.is_some() { high.candidates } else { low.candidates },
        wiki: Some(PartialWikiCompletionConfig { style: if high_style.is_some() { high_style } else { low_style } }),
    }
}

/// Merges two partial wiki sections, the first taking precedence.
pub fn merge_wiki(high: PartialWikiConfig, low: PartialWikiConfig) -> (r: PartialWikiConfig)
    ensures
        r.obsidian_prefix == or_else(high.obsidian_prefix, low.obsidian_prefix),
{
    PartialWikiConfig {
        obsidian_prefix: if high.obsidian_prefix.is_some() { high.obsidian_prefix } else { low.obsidian_prefix },
    }
}

/// The settings of a partial configuration, section by section flattened.
pub struct PartialView {
    pub file_extensions: Option<Seq<Seq<char>>>,
    pub heading_ids: Option<bool>,
    pub text_sync: Option<TextSyncKind>,
    pub title_from_heading: Option<bool>,
    pub extra_folders: Option<Seq<Seq<char>>>,
    pub ignore: Option<Seq<Seq<char>>>,
    pub toc_enable: Option<bool>,
    pub toc_levels: Option<Seq<u8>>,
    pub create_missing_file: Option<bool>,
    pub candidates: Option<usize>,
    pub completion_style: Option<WikiCompletionStyle>,
    pub obsidian_prefix: Option<bool>,
}

pub open spec fn empty_view() -> PartialView {
    PartialView {
        file_extensions: None,
        heading_ids: None,
        text_sync: None,
        title_from_heading: None,
        extra_folders: None,
        ignore: None,
        toc_enable: None,
        toc_levels: None,
        create_missing_file: None,
        candidates: None,
        completion_style: None,
        obsidian_prefix: None,
    }
}

pub open spec fn partial_view(p: PartialConfig) -> PartialView {
    let (fe, hi, ts, tf, ef, ig) = match p.core {
        Some(c) => (
            opt_strings(c.file_extensions),
            heading_ids_enable(c.heading_ids),
            c.text_sync,
            c.title_from_heading,
            opt_strings(c.extra_folders),
            opt_strings(c.ignore),
        ),
        None => (None, None, None, None, None, None),
    };
    let (te, tlv, cm) = match p.code_action {
        Some(c) => (toc_enable(c.toc), toc_levels(c.toc), create_enable(c.create_missing_file)),
        None => (None, None, None),
    };
    let (ca, cs) = match p.completion {
        Some(c) => (c.candidates, completion_style(c.wiki)),
        None => (None, None),
    };
    PartialView {
        file_extensions: fe,
        heading_ids: hi,
        text_sync: ts,
        title_from_heading: tf,
        extra_folders: ef,
        ignore: ig,
        toc_enable: te,
        toc_levels: tlv,
        create_missing_file: cm,
        candidates: ca,
        completion_style: cs,
        obsidian_prefix: wiki_prefix(p.wiki),
    }
}

pub open spec fn opt_view(o: Option<PartialConfig>) -> PartialView {
    match o {
        Some(p) => partial_view(p),
        None => empty_view(),
    }
}

/// Each setting of `h`, falling back to that of `l`.
pub open spec fn merge_views(h: PartialView, l: PartialView) -> PartialView {
    PartialView {
        file_extensions: or_else(h.file_extensions, l.file_extensions),
        heading_ids: or_else(h.heading_ids, l.heading_ids),
        text_sync: or_else(h.text_sync, l.text_sync),
        title_from_heading: or_else(h.title_from_heading, l.title_from_heading),
        extra_folders: or_else(h.extra_folders, l.extra_folders),
        ignore: or_else(h.ignore, l.ignore),
        toc_enable: or_else(h.toc_enable, l.toc_enable),
        toc_levels: or_else(h.toc_levels, l.toc_levels),
        create_missing_file: or_else(h.create_missing_file, l.create_missing_file),
        candidates: or_else(h.candidates, l.candidates),
        completion_style: or_else(h.completion_style, l.completion_style),
        obsidian_prefix: or_else(h.obsidian_prefix, l.obsidian_prefix),
    }
}

/// Merges two partial configurations, each setting of `high` taking precedence over
/// that of `low`.
pub fn merge_partial(high: PartialConfig, low: PartialConfig) -> (r: PartialConfig)
    ensures
        partial_view(r) == merge_views(partial_view(high), partial_view(low)),
        r.core is Some && r.code_action is Some && r.completion is Some && r.wiki is Some,
        r.core.unwrap().heading_ids is Some,
        r.code_action.unwrap().toc is Some && r.code_action.unwrap().create_missing_file is Some,
        r.completion.unwrap().wiki is Some,
{
    let high_core = match high.core {
        Some(c) => c,
        None => PartialCoreConfig::default(),
    };
    let low_core = match low.core {
        Some(c) => c,
        None => PartialCoreConfig::default(),
    };
    let high_code = match high.code_action {
        Some(c) => c,
        None => PartialCodeActionConfig::default(),
    };
    let low_code = match low.code_action {
        Some(c) => c,
        None => PartialCodeActionConfig::default(),
    };
    let high_completion = match high.completion {
        Some(c) => c,
        None => PartialCompletionConfig::default(),
    };
    let low_completion = match low.completion {
        Some(c) => c,
        None => PartialCompletionConfig::default(),
    };
    let high_wiki = match high.wiki {
        Some(w) => w,
        None => PartialWikiConfig { obsidian_prefix: None },
    };
    let low_wiki = match low.wiki {
        Some(w) => w,
        None => PartialWikiConfig { obsidian_prefix: None },
    };
    let r = PartialConfig {
        core: Some(merge_core(high_core, low_core)),
        code_action: Some(merge_code_action(high_code, low_code)),
        completion: Some(merge_completion(high_completion, low_completion)),
        wiki: Some(merge_wiki(high_wiki, low_wiki)),
    };
    assert(partial_view(r) =~= merge_views(partial_view(high), partial_view(low)));
    r
}

/// Every level of `v` is a heading level, 1 to 6.
pub open spec fn levels_ok(v: Seq<u8>) -> bool {
    v.len() > 0 && forall|i: int| 0 <= i < v.len() ==> 1 <= #[trigger] v[i] <= 6
}

pub open spec fn final_extensions(v: PartialView) -> Seq<Seq<char>> {
    unwrap_or(v.file_extensions, default_extensions())
}

pub open spec fn final_toc_levels(v: PartialView) -> Seq<u8> {
    unwrap_or(v.toc_levels, default_toc_levels())
}

/// `c` is what `v` gives, each absent setting taking its default.
pub open spec fn finalized(c: Config, v: PartialView) -> bool {
    &&& strings_view(c.core.file_extensions@) == final_extensions(v)
    &&& c.core.heading_ids.enable == unwrap_or(v.heading_ids, true)
    &&& c.core.text_sync == unwrap_or(v.text_sync, TextSyncKind::Full)
    &&& c.core.title_from_heading == unwrap_or(v.title_from_heading, true)
    &&& strings_view(c.core.extra_folders@) == unwrap_or(v.extra_folders, Seq::empty())
    &&& strings_view(c.core.ignore@) == unwrap_or(v.ignore, Seq::empty())
    &&& c.code_action.toc.enable == unwrap_or(v.toc_enable, true)
    &&& c.code_action.toc.levels@ == final_toc_levels(v)
    &&& c.code_action.create_missing_file.enable == unwrap_or(v.create_missing_file, true)
    &&& c.completion.candidates == (if unwrap_or(v.candidates, 50) >= 1 {
        unwrap_or(v.candidates, 50)
    } else {
        1
    })
    &&& c.completion.wiki.style == unwrap_or(v.completion_style, WikiCompletionStyle::TitleSlug)
    &&& c.wiki.obsidian_prefix == unwrap_or(v.obsidian_prefix, false)
}

/// What finalising the settings `v` gives: a validation error for an empty list of file
/// extensions, else for table-of-contents levels that are not all heading levels, else a
/// configuration.
pub open spec fn finalize_ok(r: Result<Config, ConfigError>, v: PartialView) -> bool {
    if final_extensions(v).len() == 0 {
        r matches Err(ConfigError::Validation(m)) && m@ == extensions_message()
    } else if !levels_ok(final_toc_levels(v)) {
        r matches Err(ConfigError::Validation(m)) && m@ == toc_message()
    } else {
        r matches Ok(c) && finalized(c, v)
    }
}

pub open spec fn extensions_message() -> Seq<char> {
    "core.file_extensions must not be empty"@
}

pub open spec fn toc_message() -> Seq<char> {
    "code_action.toc.levels must contain heading levels 1-6"@
}

fn all_levels_ok(v: &Vec<u8>) -> (b: bool)
    ensures
        b == levels_ok(v@),
{
    if v.len() == 0 {
        return false;
    }
    let mut i: usize = 0;
    while i < v.len()
        invariant
            i <= v@.len(),
            forall|j: int| 0 <= j < i ==> 1 <= #[trigger] v@[j] <= 6,
        decreases v@.len() - i,
    {
        if v[i] < 1 || v[i] > 6 {
            return false;
        }
        i += 1;
    }
    true
}

fn or_default_strings(o: Option<Vec<String>>) -> (r: Vec<String>)
    ensures
        strings_view(r@) == unwrap_or(opt_strings(o), Seq::empty()),
{
    match o {
        Some(v) => v,
        None => {
            let r: Vec<String> = Vec::new();
            assert(strings_view(r@) =~= Seq::<Seq<char>>::empty());
            r
        },
    }
}

/// Completes a partial configuration with the defaults and validates it: at least one
/// file extension, and table-of-contents levels that are all heading levels.
pub fn finalize_config(partial: PartialConfig) -> (r: Result<Config, ConfigError>)
    ensures
        finalize_ok(r, partial_view(partial)),
{
    let core = match partial.core {
        Some(c) => c,
        None => PartialCoreConfig::default(),
    };
    let code_action = match partial.code_action {
        Some(c) => c,
        None => PartialCodeActionConfig::default(),
    };
    let completion = match partial.completion {
        Some(c) => c,
        None => PartialCompletionConfig::default(),
    };
    let file_extensions = match core.file_extensions {
        Some(v) => v,
        None => default_extensions_vec(),
    };
    if file_extensions.len() == 0 {
        let m = String::from_str("core.file_extensions must not be empty");
        proof {
            reveal_strlit("core.file_extensions must not be empty");
        }
        return Err(ConfigError::Validation(m));
    }
    let (toc_enable_v, toc_levels_v) = match code_action.toc {
        Some(t) => (t.enable, t.levels),
        None => (None, None),
    };
    let levels = match toc_levels_v {
        Some(v) => v,
        None => default_toc_vec(),
    };
    if !all_levels_ok(&levels) {
        let m = String::from_str("code_action.toc.levels must contain heading levels 1-6");
        proof {
            reveal_strlit("code_action.toc.levels must contain heading levels 1-6");
        }
        return Err(ConfigError::Validation(m));
    }
    let heading_ids = match core.heading_ids {
        Some(h) => match h.enable {
            Some(b) => b,
            None => true,
        },
        None => true,
    };
    let create = match code_action.create_missing_file {
        Some(c) => match c.enable {
            Some(b) => b,
            None => true,
        },
        None => true,
    };
    let candidates = match completion.candidates {
        Some(n) => n,
        None => 50,
    };
    let style = match completion.wiki {
        Some(w) => match w.style {
            Some(s) => s,
            None => WikiCompletionStyle::TitleSlug,
        },
        None => WikiCompletionStyle::TitleSlug,
    };
    let obsidian_prefix = match partial.wiki {
        Some(w) => match w.obsidian_prefix {
            Some(b) => b,
            None => false,
        },
        None => false,
    };
    Ok(
        Config {
            core: CoreConfig {
                file_extensions,
                heading_ids: HeadingIdsConfig { enable: heading_ids },
                text_sync: match core.text_sync {
                    Some(t) => t,
                    None => TextSyncKind::Full,
                },
                title_from_heading: match core.title_from_heading {
                    Some(b) => b,
                    None => true,
                },
                extra_folders: or_default_strings(core.extra_folders),
                ignore: or_default_strings(core.ignore),
            },
            code_action: CodeActionConfig {
                toc: TocConfig {
                    enable: match toc_enable_v {
                        Some(b) => b,
                        None => true,
                    },
                    levels,
                },
                create_missing_file: CreateMissingFileConfig { enable: create },
            },
            completion: CompletionConfig {
                candidates: if candidates >= 1 {
                    candidates
                } else {
                    1
                },
                wiki: WikiCompletionConfig { style },
            },
            wiki: WikiConfig { obsidian_prefix },
        },
    )
}

/// The effective configuration from the user's and the project's partial configurations,
/// where they exist: the project's settings take precedence.
pub fn load_effective_config(user: Option<PartialConfig>, project: Option<PartialConfig>) -> (r: Result<Config, ConfigError>)
    ensures
        finalize_ok(r, merge_views(opt_view(project), opt_view(user))),
{
    let user = match user {
        Some(u) => u,
        None => PartialConfig::default(),
    };
    let project = match project {
        Some(p) => p,
        None => PartialConfig::default(),
    };
    finalize_config(merge_partial(project, user))
}

/// Where a project's configuration file lies under its root.
pub fn project_config_path(root: &str) -> (r: String)
    ensures
        r@ == crate::resolution::path::spec_join(root@, ".downlint.toml"@),
{
    proof {
        reveal_strlit(".downlint.toml");
    }
    join_path(root, ".downlint.toml")
}

} // verus!
