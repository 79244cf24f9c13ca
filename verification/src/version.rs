//! Version bumping for project configuration files: semantic versions, the
//! `devN` pre-release counter, and the project kinds whose files carry a version.

use vstd::prelude::*;
use serde_json::Value as JsonValue;
use toml_edit::{DocumentMut, Item, Value as TomlValue};
use crate::paths::{extension, extension_of};
use crate::text::{
    comma_list, concat, equal_chars, join_strings, joined, split_on, trimmed_nonempty,
    string_views,
    chars_of, decimal, extend_chars, parse_int, parse_u64, push_decimal, starts_with,
    starts_with_chars, string_of, tail_chars,
};

verus! {

/// A semantic version: `major.minor.patch`, an optional pre-release and optional build
/// metadata (empty strings when absent).
pub struct SemVer {
    pub major: u64,
    pub minor: u64,
    pub patch: u64,
    pub pre: String,
    pub build: String,
}

/// The values a `SemVer` holds.
pub type SemVerModel = (u64, u64, u64, Seq<char>, Seq<char>);

impl SemVer {
    /// The version as plain values.
    pub open spec fn model(&self) -> SemVerModel {
        (self.major, self.minor, self.patch, self.pre@, self.build@)
    }
}

/// Name for what `semver::Version::parse` gives for a text: the five parts of the
/// version, or `None` where the text is not a semantic version.
pub uninterp spec fn semver_parsed(text: Seq<char>) -> Option<SemVerModel>;

/// Calls `semver::Version::parse`; on success the parts of the parsed version
/// (pre-release and build as their text), named `semver_parsed(text)`. The error's
/// message is passed on; nothing is stated of it.
#[verifier::external_body]
fn parse_semver(text: &str) -> (r: Result<SemVer, String>)
    ensures
        r matches Ok(v) ==> semver_parsed(text@) == Some(v.model()),
        r is Err ==> semver_parsed(text@) is None,
{
    match semver::Version::parse(text) {
        Ok(v) => Ok(SemVer {
            major: v.major,
            minor: v.minor,
            patch: v.patch,
            pre: v.pre.as_str().to_string(),
            build: v.build.as_str().to_string(),
        }),
        Err(e) => Err(e.to_string()),
    }
}

/// The text form of a version, as `semver::Version` displays it:
/// `major.minor.patch`, then `-pre` if there is a pre-release, then `+build` if there
/// is build metadata.
pub open spec fn version_text(v: SemVerModel) -> Seq<char> {
    decimal(v.0 as nat) + seq!['.'] + decimal(v.1 as nat) + seq!['.'] + decimal(v.2 as nat) + (
    if v.3.len() > 0 {
        seq!['-'] + v.3
    } else {
        Seq::<char>::empty()
    }) + (if v.4.len() > 0 {
        seq!['+'] + v.4
    } else {
        Seq::<char>::empty()
    })
}

/// The text `dev`.
pub open spec fn dev_prefix() -> Seq<char> {
    seq!['d', 'e', 'v']
}

/// The counter `n` of a pre-release `devN`, where `N` reads as a `u64`.
pub open spec fn dev_number(pre: Seq<char>) -> Option<int> {
    if starts_with(pre, dev_prefix()) {
        parse_int(pre.skip(3), 0, u64::MAX as int)
    } else {
        None
    }
}

/// The pre-release that follows a non-empty pre-release in development bumps: `devN`
/// becomes `dev(N+1)`; anything else restarts at `dev0`.
pub open spec fn next_dev(pre: Seq<char>) -> Seq<char> {
    match dev_number(pre) {
        Some(n) => dev_prefix() + decimal((n + 1) as nat),
        None => dev_prefix() + seq!['0'],
    }
}

/// The version after a development bump: without a pre-release the patch goes up
/// and `dev0` starts; otherwise the pre-release moves on as `next_dev` says.
pub open spec fn dev_bumped(v: SemVerModel) -> SemVerModel {
    if v.3.len() == 0 {
        (v.0, v.1, (v.2 + 1) as u64, dev_prefix() + seq!['0'], v.4)
    } else {
        (v.0, v.1, v.2, next_dev(v.3), v.4)
    }
}

/// A development bump of `v` stays within `u64`.
pub open spec fn dev_bump_fits(v: SemVerModel) -> bool {
    &&& v.3.len() == 0 ==> v.2 < u64::MAX
    &&& dev_number(v.3) matches Some(n) ==> n < u64::MAX
}

/// The version after raising the component that `level` (1 patch, 2 minor, 3 major)
/// names; lower components restart at 0. Level 0 changes nothing.
pub open spec fn level_raised(v: SemVerModel, level: u8) -> SemVerModel {
    if level == 1 {
        (v.0, v.1, (v.2 + 1) as u64, v.3, v.4)
    } else if level == 2 {
        (v.0, (v.1 + 1) as u64, 0, v.3, v.4)
    } else if level == 3 {
        ((v.0 + 1) as u64, 0, 0, v.3, v.4)
    } else {
        v
    }
}

/// Raising the component that `level` names stays within `u64`.
pub open spec fn level_fits(v: SemVerModel, level: u8) -> bool {
    &&& level == 1 ==> v.2 < u64::MAX
    &&& level == 2 ==> v.1 < u64::MAX
    &&& level == 3 ==> v.0 < u64::MAX
}

/// The whole bump: raise the component for `level`; then a release drops the
/// pre-release, a development bump (level 0) moves the `dev` counter on, and any other
/// level starts the pre-release `dev0`; build metadata is dropped unless the bump is a
/// level-0 development bump.
pub open spec fn bumped(v: SemVerModel, level: u8, release: bool) -> SemVerModel {
    let r = level_raised(v, level);
    let p = if release {
        (r.0, r.1, r.2, Seq::<char>::empty(), r.4)
    } else if level == 0 {
        dev_bumped(r)
    } else {
        (r.0, r.1, r.2, dev_prefix() + seq!['0'], r.4)
    };
    if level > 0 || release {
        (p.0, p.1, p.2, p.3, Seq::<char>::empty())
    } else {
        p
    }
}

/// The bump of `v` stays within `u64`.
pub open spec fn bump_fits(v: SemVerModel, level: u8, release: bool) -> bool {
    level_fits(v, level) && (!release && level == 0 ==> dev_bump_fits(v))
}

/// `major.minor.patch` of `a` comes strictly before that of `b`.
pub open spec fn core_precedes(a: SemVerModel, b: SemVerModel) -> bool {
    a.0 < b.0 || (a.0 == b.0 && (a.1 < b.1 || (a.1 == b.1 && a.2 < b.2)))
}

/// A bump at a level (1 patch, 2 minor, 3 major) moves `major.minor.patch` strictly
/// forward and drops the build metadata; a release has no pre-release, and any other
/// bump at a level starts the pre-release `dev0`.
pub proof fn lemma_bump_advances(v: SemVerModel, level: u8, release: bool)
    requires
        1 <= level <= 3,
        bump_fits(v, level, release),
    ensures
        core_precedes(v, bumped(v, level, release)),
        bumped(v, level, release).4.len() == 0,
        release ==> bumped(v, level, release).3.len() == 0,
        !release ==> bumped(v, level, release).3 == dev_prefix() + seq!['0'],
{
}

/// `dev` followed by the decimal digits of `k` is the `dev` counter `k`.
proof fn lemma_dev_number_of(k: nat)
    requires
        k <= u64::MAX,
    ensures
        dev_number(dev_prefix() + decimal(k)) == Some(k as int),
{
    let s = dev_prefix() + decimal(k);
    assert(s.take(3) =~= dev_prefix());
    assert(s.skip(3) =~= decimal(k));
    crate::text::lemma_decimal_parses(k, 0, u64::MAX as int);
}

/// A development bump (level 0, not a release) moves the `dev` counter on by one and
/// keeps major, minor and the build metadata: a pre-release `devN` becomes `dev(N+1)`
/// and any other pre-release `dev0`, the patch staying; without a pre-release the
/// patch goes up by one and the counter starts at 0.
pub proof fn lemma_dev_counter_advances(v: SemVerModel)
    requires
        dev_bump_fits(v),
    ensures
        ({
            let w = bumped(v, 0, false);
            &&& w.0 == v.0 && w.1 == v.1 && w.4 == v.4
            &&& v.3.len() == 0 ==> w.2 == v.2 + 1 && dev_number(w.3) == Some(0int)
            &&& v.3.len() > 0 ==> w.2 == v.2 && dev_number(w.3) == Some(
                match dev_number(v.3) {
                    Some(n) => n + 1,
                    None => 0,
                },
            )
        }),
{
    assert(decimal(0) =~= seq!['0']);
    lemma_dev_number_of(0);
    if let Some(n) = dev_number(v.3) {
        lemma_dev_number_of((n + 1) as nat);
    }
}

/// Why a version could not be bumped.
pub enum BumpError {
    /// More than three `-i` flags were given.
    TooManyFlags,
    /// The version text is not a semantic version; the parser's message.
    InvalidVersion(String),
    /// A version component would pass `u64::MAX`.
    Overflow,
}

impl BumpError {
    /// The message shown for the error.
    pub fn message(&self) -> (s: String)
        ensures
            s@ == match self {
                BumpError::TooManyFlags => "Too many -i flags: use up to 3"@,
                BumpError::InvalidVersion(m) => m@,
                BumpError::Overflow => "Version component overflow"@,
            },
    {
        match self {
            BumpError::TooManyFlags => "Too many -i flags: use up to 3".to_string(),
            BumpError::InvalidVersion(m) => m.clone(),
            BumpError::Overflow => "Version component overflow".to_string(),
        }
    }
}

impl SemVer {
    /// The version written as `semver` displays it.
    pub fn to_string(&self) -> (s: String)
        ensures
            s@ == version_text(self.model()),
    {
        let mut v: Vec<char> = Vec::new();
        push_decimal(&mut v, self.major);
        v.push('.');
        push_decimal(&mut v, self.minor);
        v.push('.');
        push_decimal(&mut v, self.patch);
        let ghost core = v@;
        let pre = chars_of(self.pre.as_str());
        if pre.len() > 0 {
            v.push('-');
            extend_chars(&mut v, &pre);
        }
        let ghost mid = v@;
        let build = chars_of(self.build.as_str());
        if build.len() > 0 {
            v.push('+');
            extend_chars(&mut v, &build);
        }
        assert(v@ =~= version_text(self.model()));
        string_of(&v)
    }

    /// A copy of the version.
    pub fn copy(&self) -> (r: SemVer)
        ensures
            r.model() == self.model(),
    {
        SemVer {
            major: self.major,
            minor: self.minor,
            patch: self.patch,
            pre: self.pre.clone(),
            build: self.build.clone(),
        }
    }
}

/// Increment patch version number.
pub fn increment_patch(version: &mut SemVer)
    requires
        old(version).patch < u64::MAX,
    ensures
        final(version).model() == level_raised(old(version).model(), 1),
{
    version.patch = version.patch + 1;
}

/// Increment minor version number and reset patch to 0.
pub fn increment_minor(version: &mut SemVer)
    requires
        old(version).minor < u64::MAX,
    ensures
        final(version).model() == level_raised(old(version).model(), 2),
{
    version.minor = version.minor + 1;
    version.patch = 0;
}

/// Increment major version number and reset minor and patch to 0.
pub fn increment_major(version: &mut SemVer)
    requires
        old(version).major < u64::MAX,
    ensures
        final(version).model() == level_raised(old(version).model(), 3),
{
    version.major = version.major + 1;
    version.minor = 0;
    version.patch = 0;
}

/// The pre-release `dev0`.
fn dev_zero() -> (s: String)
    ensures
        s@ == dev_prefix() + seq!['0'],
{
    let mut s = String::new();
    s.push('d');
    s.push('e');
    s.push('v');
    s.push('0');
    assert(s@ =~= dev_prefix() + seq!['0']);
    s
}

/// Bumps the development counter: `devN` becomes `dev(N+1)`, another pre-release
/// becomes `dev0`, and a version without pre-release gets the next patch and `dev0`.
pub fn bump_dev(version: &mut SemVer)
    requires
        dev_bump_fits(old(version).model()),
    ensures
        final(version).model() == dev_bumped(old(version).model()),
{
    let pre = chars_of(version.pre.as_str());
    if pre.len() == 0 {
        version.patch = version.patch + 1;
        version.pre = dev_zero();
        return;
    }
    let dev = ['d', 'e', 'v'];
    assert(dev@ == dev_prefix());
    if starts_with_chars(&pre, &dev) {
        let rest = tail_chars(&pre, 3);
        match parse_u64(&rest) {
            Some(n) => {
                let mut v: Vec<char> = Vec::new();
                v.push('d');
                v.push('e');
                v.push('v');
                push_decimal(&mut v, n + 1);
                assert(v@ =~= dev_prefix() + decimal((n + 1) as nat));
                version.pre = string_of(&v);
            },
            None => {
                version.pre = dev_zero();
            },
        }
    } else {
        version.pre = dev_zero();
    }
}

/// The version after a bump at `level` (0 development, 1 patch, 2 minor, 3 major),
/// as a release or not; more than three levels is refused.
pub fn bump(version: &SemVer, level: u8, release: bool) -> (r: Result<SemVer, BumpError>)
    requires
        level <= 3 ==> bump_fits(version.model(), level, release),
    ensures
        level > 3 <==> (r matches Err(BumpError::TooManyFlags)),
        level <= 3 ==> (r matches Ok(w) && w.model() == bumped(version.model(), level, release)),
{
    if level > 3 {
        return Err(BumpError::TooManyFlags);
    }
    let mut v = version.copy();
    if level == 1 {
        increment_patch(&mut v);
    } else if level == 2 {
        increment_minor(&mut v);
    } else if level == 3 {
        increment_major(&mut v);
    }
    if release {
        v.pre = String::new();
    } else if level == 0 {
        bump_dev(&mut v);
    } else {
        v.pre = dev_zero();
    }
    if level > 0 || release {
        v.build = String::new();
    }
    assert(v.model() =~= bumped(version.model(), level, release));
    Ok(v)
}

/// Whether the bump of `v` stays within `u64`.
fn bump_fits_exec(v: &SemVer, level: u8, release: bool) -> (b: bool)
    ensures
        b == bump_fits(v.model(), level, release),
{
    if level == 1 && v.patch == u64::MAX || level == 2 && v.minor == u64::MAX || level == 3
        && v.major == u64::MAX {
        return false;
    }
    if release || level != 0 {
        return true;
    }
    let pre = chars_of(v.pre.as_str());
    if pre.len() == 0 {
        return v.patch < u64::MAX;
    }
    let dev = ['d', 'e', 'v'];
    assert(dev@ == dev_prefix());
    if starts_with_chars(&pre, &dev) {
        let rest = tail_chars(&pre, 3);
        match parse_u64(&rest) {
            Some(n) => n < u64::MAX,
            None => true,
        }
    } else {
        true
    }
}

/// Reads a version text and bumps it: the old and the new version text. Fails where
/// the text is not a semantic version, where more than three levels are asked, or
/// where a component would pass `u64::MAX`.
pub fn bump_version_text(text: &str, level: u8, release: bool) -> (r: Result<
    (String, String),
    BumpError,
>)
    ensures
        semver_parsed(text@) is None <==> (r matches Err(BumpError::InvalidVersion(_))),
        semver_parsed(text@) matches Some(v) ==> {
            &&& level > 3 <==> (r matches Err(BumpError::TooManyFlags))
            &&& (level <= 3 && !bump_fits(v, level, release)) <==> (r matches Err(BumpError::Overflow))
            &&& (level <= 3 && bump_fits(v, level, release)) ==> (r matches Ok((old, new))
                && old@ == version_text(v) && new@ == version_text(bumped(v, level, release)))
        },
{
    let version = match parse_semver(text) {
        Ok(v) => v,
        Err(m) => return Err(BumpError::InvalidVersion(m)),
    };
    if level > 3 {
        return Err(BumpError::TooManyFlags);
    }
    if !bump_fits_exec(&version, level, release) {
        return Err(BumpError::Overflow);
    }
    let old = version.to_string();
    match bump(&version, level, release) {
        Ok(w) => Ok((old, w.to_string())),
        Err(e) => Err(e),
    }
}


/// The kinds of project whose configuration file carries a version.
#[derive(Clone, Copy, Debug)]
pub enum ProjectType {
    /// Python project with pyproject.toml
    Python,
    /// Rust project with Cargo.toml
    Cargo,
    /// Node.js project with package.json
    Node,
    /// Auto-detect project type
    Auto,
}

/// Where a project kind keeps its version: the configuration file and the path of
/// keys to the version field in it.
pub struct ProjectConfig {
    pub file_name: String,
    pub version_path: Vec<String>,
}

impl ProjectConfig {
    /// The file name and key path as plain values.
    pub open spec fn model(&self) -> (Seq<char>, Seq<Seq<char>>) {
        (self.file_name@, self.version_path@.map_values(|k: String| k@))
    }
}

/// The configuration file and version key path of each concrete project kind.
pub open spec fn config_of(t: ProjectType) -> Option<(Seq<char>, Seq<Seq<char>>)> {
    match t {
        ProjectType::Python => Some(("pyproject.toml"@, seq!["project"@, "version"@])),
        ProjectType::Cargo => Some(("Cargo.toml"@, seq!["package"@, "version"@])),
        ProjectType::Node => Some(("package.json"@, seq!["version"@])),
        ProjectType::Auto => None,
    }
}

/// The project kind chosen for a directory, given which configuration files it holds:
/// a concrete kind is chosen when its own file is there; auto-detection takes the first
/// of Python, Cargo and Node whose file is there.
pub open spec fn selected_type(
    t: ProjectType,
    python_present: bool,
    cargo_present: bool,
    node_present: bool,
) -> Option<ProjectType> {
    match t {
        ProjectType::Python => if python_present { Some(ProjectType::Python) } else { None },
        ProjectType::Cargo => if cargo_present { Some(ProjectType::Cargo) } else { None },
        ProjectType::Node => if node_present { Some(ProjectType::Node) } else { None },
        ProjectType::Auto => if python_present {
            Some(ProjectType::Python)
        } else if cargo_present {
            Some(ProjectType::Cargo)
        } else if node_present {
            Some(ProjectType::Node)
        } else {
            None
        },
    }
}

fn owned(s: &str) -> (r: String)
    ensures
        r@ == s@,
{
    s.to_string()
}

impl ProjectConfig {
    /// The configuration of a concrete project kind; none for `Auto`.
    pub fn for_type(project_type: ProjectType) -> (r: Option<ProjectConfig>)
        ensures
            r matches Some(c) ==> config_of(project_type) == Some(c.model()),
            r is None ==> config_of(project_type) is None,
    {
        match project_type {
            ProjectType::Python => {
                let c = ProjectConfig {
                    file_name: owned("pyproject.toml"),
                    version_path: vec![owned("project"), owned("version")],
                };
                assert(c.model().1 =~= seq!["project"@, "version"@]);
                Some(c)
            },
            ProjectType::Cargo => {
                let c = ProjectConfig {
                    file_name: owned("Cargo.toml"),
                    version_path: vec![owned("package"), owned("version")],
                };
                assert(c.model().1 =~= seq!["package"@, "version"@]);
                Some(c)
            },
            ProjectType::Node => {
                let c = ProjectConfig {
                    file_name: owned("package.json"),
                    version_path: vec![owned("version")],
                };
                assert(c.model().1 =~= seq!["version"@]);
                Some(c)
            },
            ProjectType::Auto => None,
        }
    }

    /// The project kind and its configuration for a directory, given which of the
    /// Python, Cargo and Node configuration files it holds.
    pub fn select(
        project_type: ProjectType,
        python_present: bool,
        cargo_present: bool,
        node_present: bool,
    ) -> (r: Option<(ProjectType, ProjectConfig)>)
        ensures
            r matches Some((t, c)) ==> selected_type(
                project_type,
                python_present,
                cargo_present,
                node_present,
            ) == Some(t) && config_of(t) == Some(c.model()),
            r is None ==> selected_type(project_type, python_present, cargo_present, node_present)
                is None,
    {
        let t = match project_type {
            ProjectType::Python => if python_present { ProjectType::Python } else { return None },
            ProjectType::Cargo => if cargo_present { ProjectType::Cargo } else { return None },
            ProjectType::Node => if node_present { ProjectType::Node } else { return None },
            ProjectType::Auto => if python_present {
                ProjectType::Python
            } else if cargo_present {
                ProjectType::Cargo
            } else if node_present {
                ProjectType::Node
            } else {
                return None;
            },
        };
        match ProjectConfig::for_type(t) {
            Some(c) => Some((t, c)),
            None => None,
        }
    }
}

/// What a configuration file holds under a key path, as reading and writing the
/// version sees it: a table (a JSON object), an inline TOML table, a string, or
/// another value.
pub enum ConfigValue {
    Table,
    InlineTable,
    Text(String),
    Other,
}

/// A `ConfigValue` as a plain value.
pub enum ConfigItem {
    Table,
    InlineTable,
    Text(Seq<char>),
    Other,
}

impl ConfigValue {
    /// The value as a plain value.
    pub open spec fn item(&self) -> ConfigItem {
        match self {
            ConfigValue::Table => ConfigItem::Table,
            ConfigValue::InlineTable => ConfigItem::InlineTable,
            ConfigValue::Text(s) => ConfigItem::Text(s@),
            ConfigValue::Other => ConfigItem::Other,
        }
    }
}

/// The plain values of a list of `ConfigValue`s.
pub open spec fn items(found: Seq<ConfigValue>) -> Seq<ConfigItem> {
    found.map_values(|v: ConfigValue| v.item())
}

/// Keys can be looked up in the value.
pub open spec fn has_keys(v: ConfigItem) -> bool {
    v is Table || v is InlineTable
}

/// `found` is what a file holds along `path`: entry `i` is the value under the first
/// `i` keys (entry 0 the whole document); the list stops where the next key is missing,
/// which it always is under a value without keys.
pub open spec fn path_values(path_len: int, found: Seq<ConfigItem>) -> bool {
    &&& 1 <= found.len() <= path_len + 1
    &&& forall|i: int| 0 <= i < found.len() - 1 ==> has_keys(#[trigger] found[i])
}

/// The first `n` keys joined with `.`.
pub open spec fn key_prefix(path: Seq<Seq<char>>, n: int) -> Seq<char> {
    joined(path.take(n), "."@)
}

/// The version a TOML file holds at `path`, or the error reading it gives: the first
/// key prefix that is missing, or a version that is not a string.
pub open spec fn toml_version_of(path: Seq<Seq<char>>, found: Seq<ConfigItem>) -> Result<Seq<char>, Seq<char>> {
    if found.len() <= path.len() {
        Err("'"@ + key_prefix(path, found.len() as int) + "' not found in configuration file"@)
    } else {
        match found.last() {
            ConfigItem::Text(v) => Ok(v),
            _ => Err("Version at path '"@ + key_prefix(path, path.len() as int) + "' is not a string"@),
        }
    }
}

/// The version a JSON file holds at `path`, or the error reading it gives: the key
/// that is missing, or a version that is not a string.
pub open spec fn json_version_of(path: Seq<Seq<char>>, found: Seq<ConfigItem>, config_path: Seq<char>) -> Result<
    Seq<char>,
    Seq<char>,
> {
    if found.len() <= path.len() {
        Err("Key '"@ + path[found.len() - 1] + "' not found in "@ + config_path)
    } else {
        match found.last() {
            ConfigItem::Text(v) => Ok(v),
            _ => Err("Version field is not a string"@),
        }
    }
}

fn joined_prefix(path: &Vec<String>, n: usize) -> (r: String)
    requires
        n <= path.len(),
    ensures
        r@ == key_prefix(string_views(path@), n as int),
{
    let mut parts: Vec<String> = Vec::new();
    let mut i: usize = 0;
    while i < n
        invariant
            i <= n <= path.len(),
            string_views(parts@) == string_views(path@).take(i as int),
        decreases n - i,
    {
        let ghost before = string_views(parts@);
        parts.push(path[i].clone());
        assert(string_views(parts@) =~= before.push(path@[i as int]@));
        assert(string_views(path@).take(i as int + 1) =~= string_views(path@).take(i as int).push(path@[i as int]@));
        i = i + 1;
    }
    join_strings(parts.as_slice(), ".")
}

/// Reads the version from what a TOML file holds along the version key path.
pub fn toml_version(path: &Vec<String>, found: &Vec<ConfigValue>) -> (r: Result<String, String>)
    requires
        path_values(path.len() as int, items(found@)),
    ensures
        match (r, toml_version_of(string_views(path@), items(found@))) {
            (Ok(a), Ok(b)) => a@ == b,
            (Err(a), Err(b)) => a@ == b,
            _ => false,
        },
{
    if found.len() <= path.len() {
        let prefix = joined_prefix(path, found.len());
        let a = concat("'", prefix.as_str());
        return Err(concat(a.as_str(), "' not found in configuration file"));
    }
    match &found[found.len() - 1] {
        ConfigValue::Text(v) => Ok(v.clone()),
        _ => {
            let prefix = joined_prefix(path, path.len());
            let a = concat("Version at path '", prefix.as_str());
            Err(concat(a.as_str(), "' is not a string"))
        },
    }
}

/// Reads the version from what a JSON file at `config_path` holds along the version
/// key path.
pub fn json_version(path: &Vec<String>, found: &Vec<ConfigValue>, config_path: &str) -> (r: Result<String, String>)
    requires
        path_values(path.len() as int, items(found@)),
    ensures
        match (r, json_version_of(string_views(path@), items(found@), config_path@)) {
            (Ok(a), Ok(b)) => a@ == b,
            (Err(a), Err(b)) => a@ == b,
            _ => false,
        },
{
    if found.len() <= path.len() {
        let a = concat("Key '", path[found.len() - 1].as_str());
        let b = concat(a.as_str(), "' not found in ");
        return Err(concat(b.as_str(), config_path));
    }
    match &found[found.len() - 1] {
        ConfigValue::Text(v) => Ok(v.clone()),
        _ => Err("Version field is not a string".to_string()),
    }
}

/// The first key position from `i` on (below `path_len`) where `found` holds no
/// table, or `path_len` when every one of them holds a table.
pub open spec fn first_missing_table(path_len: int, found: Seq<ConfigItem>, i: int) -> int
    decreases path_len - i,
{
    if i >= path_len {
        path_len
    } else if i >= found.len() || !(found[i] is Table) {
        i
    } else {
        first_missing_table(path_len, found, i + 1)
    }
}

/// Where no key position from `i` on lacks a table, every one of them holds one.
proof fn lemma_first_missing_table(path_len: int, found: Seq<ConfigItem>, i: int)
    ensures
        first_missing_table(path_len, found, i) >= path_len ==> forall|j: int|
            i <= j < path_len ==> j < found.len() && (#[trigger] found[j]) is Table,
    decreases path_len - i,
{
    if i < path_len && i < found.len() && found[i] is Table {
        lemma_first_missing_table(path_len, found, i + 1);
    }
}

/// Why the version cannot be written into a TOML file along `path`, if it cannot: the
/// path is empty, or a key before the last one does not hold a table.
pub open spec fn toml_update_error(path: Seq<Seq<char>>, found: Seq<ConfigItem>) -> Option<Seq<char>> {
    if path.len() == 0 {
        Some("Version path cannot be empty"@)
    } else {
        let i = first_missing_table(path.len() as int, found, 1);
        if i < path.len() {
            Some("'"@ + path[i - 1] + "' table not found in configuration file"@)
        } else {
            None
        }
    }
}

/// Why the version cannot be written into a JSON file along a non-empty `path`, if
/// it cannot: a key before the last one does not hold an object, or the last key is
/// missing.
pub open spec fn json_update_error(path: Seq<Seq<char>>, found: Seq<ConfigItem>) -> Option<Seq<char>> {
    let i = first_missing_table(path.len() as int, found, 1);
    if i < path.len() {
        Some("Intermediate key '"@ + path[i - 1] + "' not found or not an object"@)
    } else if found.len() <= path.len() {
        Some("Final key '"@ + path[path.len() - 1] + "' not found"@)
    } else {
        None
    }
}

/// Whether the version can be written into a TOML file along `path`; otherwise the
/// error writing it gives.
pub fn toml_update_check(path: &Vec<String>, found: &Vec<ConfigValue>) -> (r: Result<(), String>)
    requires
        path_values(path.len() as int, items(found@)),
    ensures
        match toml_update_error(string_views(path@), items(found@)) {
            Some(m) => r matches Err(e) && e@ == m,
            None => r is Ok,
        },
{
    if path.len() == 0 {
        return Err("Version path cannot be empty".to_string());
    }
    let mut i: usize = 1;
    while i < path.len()
        invariant
            1 <= i <= path.len(),
            first_missing_table(path.len() as int, items(found@), 1) == first_missing_table(
                path.len() as int,
                items(found@),
                i as int,
            ),
        decreases path.len() - i,
    {
        let is_table = i < found.len() && match &found[i] {
            ConfigValue::Table => true,
            _ => false,
        };
        if !is_table {
            assert(string_views(path@)[i - 1] == path@[i - 1]@);
            let a = concat("'", path[i - 1].as_str());
            return Err(concat(a.as_str(), "' table not found in configuration file"));
        }
        i = i + 1;
    }
    Ok(())
}

/// Whether the version can be written into a JSON file along a non-empty `path`;
/// otherwise the error writing it gives.
pub fn json_update_check(path: &Vec<String>, found: &Vec<ConfigValue>) -> (r: Result<(), String>)
    requires
        path.len() > 0,
        path_values(path.len() as int, items(found@)),
    ensures
        match json_update_error(string_views(path@), items(found@)) {
            Some(m) => r matches Err(e) && e@ == m,
            None => r is Ok,
        },
{
    let mut i: usize = 1;
    while i < path.len()
        invariant
            1 <= i <= path.len(),
            first_missing_table(path.len() as int, items(found@), 1) == first_missing_table(
                path.len() as int,
                items(found@),
                i as int,
            ),
        decreases path.len() - i,
    {
        let is_table = i < found.len() && match &found[i] {
            ConfigValue::Table => true,
            _ => false,
        };
        if !is_table {
            assert(string_views(path@)[i - 1] == path@[i - 1]@);
            let a = concat("Intermediate key '", path[i - 1].as_str());
            return Err(concat(a.as_str(), "' not found or not an object"));
        }
        i = i + 1;
    }
    if found.len() <= path.len() {
        assert(string_views(path@)[path.len() - 1] == path@[path.len() - 1]@);
        let a = concat("Final key '", path[path.len() - 1].as_str());
        return Err(concat(a.as_str(), "' not found"));
    }
    Ok(())
}

/// The file extensions watched for changes by default for each project kind.
pub open spec fn default_extensions(t: ProjectType) -> Seq<char> {
    match t {
        ProjectType::Python => "py"@,
        ProjectType::Cargo => "rs"@,
        ProjectType::Node => "js,ts,jsx,tsx,json"@,
        ProjectType::Auto => "py,rs,js,ts,jsx,tsx,json"@,
    }
}

/// The comma-separated extensions watched by default for `project_type`.
pub fn default_watch_extensions(project_type: ProjectType) -> (s: String)
    ensures
        s@ == default_extensions(project_type),
{
    match project_type {
        ProjectType::Python => owned("py"),
        ProjectType::Cargo => owned("rs"),
        ProjectType::Node => owned("js,ts,jsx,tsx,json"),
        ProjectType::Auto => owned("py,rs,js,ts,jsx,tsx,json"),
    }
}

/// The path has an extension and it is one of `allowed`.
pub open spec fn extension_listed(path: Seq<char>, allowed: Seq<Seq<char>>) -> bool {
    match extension(path) {
        Some(e) => allowed.contains(e),
        None => false,
    }
}

/// Checks if a file has one of the allowed extensions.
pub fn has_allowed_extension(file_path: &str, allowed_extensions: &[String]) -> (b: bool)
    ensures
        b == extension_listed(file_path@, string_views(allowed_extensions@)),
{
    let p = chars_of(file_path);
    match extension_of(&p) {
        Some(e) => {
            let mut k: usize = 0;
            while k < allowed_extensions.len()
                invariant
                    k <= allowed_extensions.len(),
                    extension(file_path@) == Some(e@),
                    forall|j: int| 0 <= j < k ==> #[trigger] string_views(allowed_extensions@)[j] != e@,
                decreases allowed_extensions.len() - k,
            {
                let a = chars_of(allowed_extensions[k].as_str());
                if crate::text::equal_chars(&a, &e) {
                    assert(string_views(allowed_extensions@)[k as int] == e@);
                    return true;
                }
                k = k + 1;
            }
            false
        },
        None => false,
    }
}

/// The extensions watched for changes: the given comma-separated list, or else the
/// project kind's default one, each entry trimmed, empty entries left out.
pub fn watch_extensions(given: Option<String>, project_type: ProjectType) -> (v: Vec<String>)
    ensures
        string_views(v@) == trimmed_nonempty(split_on(
            match given {
                Some(g) => g@,
                None => default_extensions(project_type),
            },
            ',',
        )),
{
    match given {
        Some(g) => comma_list(g.as_str()),
        None => {
            let d = default_watch_extensions(project_type);
            comma_list(d.as_str())
        },
    }
}

/// Name for what `toml_edit` finds in a TOML text along a key path: the document
/// (`DocumentMut`) and then the item under each key, down to the first key that is
/// missing; none when the text does not parse.
pub uninterp spec fn toml_found(text: Seq<char>, path: Seq<Seq<char>>) -> Option<Seq<ConfigItem>>;

/// Name for the text `toml_edit` prints after the value under `path` is set to the
/// string `version`; none when the text does not parse or a key before the last one
/// does not hold a table.
pub uninterp spec fn toml_set_text(text: Seq<char>, path: Seq<Seq<char>>, version: Seq<char>) -> Option<Seq<char>>;

/// Name for what `serde_json` finds in a JSON text along a key path: the whole value
/// and then the value under each key, down to the first key that is missing; none
/// when the text does not parse.
pub uninterp spec fn json_found(text: Seq<char>, path: Seq<Seq<char>>) -> Option<Seq<ConfigItem>>;

/// Name for the pretty-printed JSON object after the value under `path` is set to the
/// string `version`; none when the text is not a JSON object or the path does not lead
/// to an existing key through objects.
pub uninterp spec fn json_set_text(text: Seq<char>, path: Seq<Seq<char>>, version: Seq<char>) -> Option<Seq<char>>;

/// Parses `text` as a `toml_edit::DocumentMut` and lists what it holds along `path`
/// (`Item::get` key by key); named `toml_found`. A key is found only under a table or
/// an inline table, so the list stops below any other item; the document itself is a
/// table. The parser's message is passed on; nothing is stated of it.
#[verifier::external_body]
fn toml_found_in(text: &str, path: &Vec<String>) -> (r: Result<Vec<ConfigValue>, String>)
    ensures
        r matches Ok(f) ==> toml_found(text@, string_views(path@)) == Some(items(f@)) && path_values(
            path.len() as int,
            items(f@),
        ) && items(f@)[0] is Table,
        r is Err ==> toml_found(text@, string_views(path@)) is None,
{
    let doc = text.parse::<DocumentMut>().map_err(|e| e.to_string())?;
    let (mut found, mut current, mut keys) = (Vec::new(), Some(doc.as_item()), path.iter());
    while let Some(item) = current {
        found.push(match item {
            Item::Table(_) => ConfigValue::Table,
            Item::Value(TomlValue::InlineTable(_)) => ConfigValue::InlineTable,
            Item::Value(TomlValue::String(s)) => ConfigValue::Text(s.value().to_string()),
            _ => ConfigValue::Other,
        });
        current = match keys.next() { Some(k) => item.get(k.as_str()), None => None };
    }
    Ok(found)
}

/// Parses `text` as a `toml_edit::DocumentMut`, goes down the tables of all keys but
/// the last (`get_mut`, `as_table_mut`), sets the last key to the string `version`
/// (`toml_edit::value`) and prints the document; named `toml_set_text`. The same text
/// parses the same way as for `toml_found`, so where that found tables under all keys
/// but the last, the setting succeeds.
#[verifier::external_body]
fn toml_with_version(text: &str, path: &Vec<String>, version: &str) -> (r: Option<String>)
    ensures
        r matches Some(t) ==> toml_set_text(text@, string_views(path@), version@) == Some(t@),
        r is None ==> toml_set_text(text@, string_views(path@), version@) is None,
        (toml_found(text@, string_views(path@)) matches Some(f) && path.len() > 0 && forall|i: int|
            1 <= i < path.len() ==> i < f.len() && (#[trigger] f[i]) is Table) ==> r is Some,
{
    let mut doc = text.parse::<DocumentMut>().ok()?;
    let (last, init) = path.split_last()?;
    let mut current = doc.as_table_mut();
    for key in init {
        current = current.get_mut(key)?.as_table_mut()?;
    }
    current[last.as_str()] = toml_edit::value(version);
    Some(doc.to_string())
}

/// Parses `text` as a `serde_json::Value` and lists what it holds along `path`
/// (`Value::get` key by key); named `json_found`. A key is found only in an object, so
/// the list stops below any other value; no JSON value is an inline table. The
/// parser's message is passed on; nothing is stated of it.
#[verifier::external_body]
fn json_found_in(text: &str, path: &Vec<String>) -> (r: Result<Vec<ConfigValue>, String>)
    ensures
        r matches Ok(f) ==> json_found(text@, string_views(path@)) == Some(items(f@)) && path_values(
            path.len() as int,
            items(f@),
        ) && forall|k: int| 0 <= k < f.len() ==> !(#[trigger] items(f@)[k] is InlineTable),
        r is Err ==> json_found(text@, string_views(path@)) is None,
{
    let value: JsonValue = serde_json::from_str(text).map_err(|e| e.to_string())?;
    let (mut found, mut current, mut keys) = (Vec::new(), Some(&value), path.iter());
    while let Some(v) = current {
        found.push(match v {
            JsonValue::Object(_) => ConfigValue::Table,
            JsonValue::String(s) => ConfigValue::Text(s.clone()),
            _ => ConfigValue::Other,
        });
        current = match keys.next() { Some(k) => v.get(k.as_str()), None => None };
    }
    Ok(found)
}

/// Parses `text` as a `serde_json::Map` (a JSON object), goes down the objects of all
/// keys but the last (`get_mut`, `as_object_mut`), replaces the value of the last key,
/// which must exist, by the string `version`, and prints the object with
/// `to_string_pretty`; named `json_set_text`. `Err` carries the parser's message when
/// the text is not an object (nothing is stated of it); `Ok(None)` means the path does
/// not lead to a key. The same text parses the same way as for `json_found`, so where
/// that found objects down to an existing last key, the setting succeeds; printing a
/// map with string keys does not fail. With an empty path the text is never an object
/// here, so the parse fails.
#[verifier::external_body]
fn json_with_version(text: &str, path: &Vec<String>, version: &str) -> (r: Result<Option<String>, String>)
    requires
        path.len() > 0 || (json_found(text@, string_views(path@)) matches Some(f) && !(f[0] is Table)),
    ensures
        r matches Ok(Some(t)) ==> json_set_text(text@, string_views(path@), version@) == Some(t@),
        !(r matches Ok(Some(_))) ==> json_set_text(text@, string_views(path@), version@) is None,
        (json_found(text@, string_views(path@)) matches Some(f) && path.len() > 0 && f.len() == path.len() + 1
            && forall|i: int| 0 <= i < path.len() ==> (#[trigger] f[i]) is Table) ==> r matches Ok(Some(_)),
        path.len() == 0 ==> r is Err,
{
    let mut data: serde_json::Map<String, JsonValue> = serde_json::from_str(text).map_err(|e| e.to_string())?;
    let (last, init) = path.split_last().unwrap();
    let mut current = &mut data;
    for key in init {
        current = match current.get_mut(key).and_then(JsonValue::as_object_mut) { Some(m) => m, None => return Ok(None) };
    }
    match current.get_mut(last) { Some(v) => *v = JsonValue::String(version.to_string()), None => return Ok(None) }
    Ok(serde_json::to_string_pretty(&data).ok())
}

/// What a configuration text holds along the key path, TOML or JSON.
pub open spec fn config_found(json: bool, text: Seq<char>, path: Seq<Seq<char>>) -> Option<Seq<ConfigItem>> {
    if json { json_found(text, path) } else { toml_found(text, path) }
}

/// The version read from what a configuration file holds, TOML or JSON.
pub open spec fn config_version_of(json: bool, path: Seq<Seq<char>>, found: Seq<ConfigItem>, config_path: Seq<char>) -> Result<
    Seq<char>,
    Seq<char>,
> {
    if json { json_version_of(path, found, config_path) } else { toml_version_of(path, found) }
}

/// Why the new version cannot be written, TOML or JSON (for JSON, along a non-empty
/// path).
pub open spec fn config_update_error(json: bool, path: Seq<Seq<char>>, found: Seq<ConfigItem>) -> Option<Seq<char>> {
    if json { json_update_error(path, found) } else { toml_update_error(path, found) }
}

/// The configuration text with the new version written in, TOML or JSON.
pub open spec fn config_set_text(json: bool, text: Seq<char>, path: Seq<Seq<char>>, version: Seq<char>) -> Option<Seq<char>> {
    if json { json_set_text(text, path, version) } else { toml_set_text(text, path, version) }
}

/// What goes wrong when bumping the version held in a configuration file's text.
pub enum ConfigBumpError {
    /// The text is not a TOML document or a JSON value; the parser's message.
    Unparsable(String),
    /// The version is missing or not a string; the message.
    NoVersion(String),
    /// The version does not bump.
    Version(BumpError),
    /// The new version cannot be written along the key path; the message.
    NotWritable(String),
}

/// Bumps the version held in the text of a configuration file (JSON when `json`, else
/// TOML) at the key path: the old version, the new one, and the file's new text.
pub fn bump_config_text(
    text: &str,
    json: bool,
    config_path: &str,
    path: &Vec<String>,
    level: u8,
    release: bool,
) -> (r: Result<(String, String, String), ConfigBumpError>)
    ensures
        config_found(json, text@, string_views(path@)) is None <==> r matches Err(ConfigBumpError::Unparsable(_)),
        config_found(json, text@, string_views(path@)) matches Some(f) ==> match config_version_of(
            json,
            string_views(path@),
            f,
            config_path@,
        ) {
            Err(m) => r matches Err(ConfigBumpError::NoVersion(e)) && e@ == m,
            Ok(v) => match semver_parsed(v) {
                None => r matches Err(ConfigBumpError::Version(BumpError::InvalidVersion(_))),
                Some(sv) => if level > 3 {
                    r matches Err(ConfigBumpError::Version(BumpError::TooManyFlags))
                } else if !bump_fits(sv, level, release) {
                    r matches Err(ConfigBumpError::Version(BumpError::Overflow))
                } else if json && path.len() == 0 {
                    r matches Err(ConfigBumpError::NotWritable(_))
                } else {
                    match config_update_error(json, string_views(path@), f) {
                        Some(m) => r matches Err(ConfigBumpError::NotWritable(e)) && e@ == m,
                        None => r matches Ok((old, new, out)) && old@ == version_text(sv) && new@ == version_text(
                            bumped(sv, level, release),
                        ) && config_set_text(json, text@, string_views(path@), new@) == Some(out@),
                    }
                },
            },
        },
{
    let found = if json { json_found_in(text, path) } else { toml_found_in(text, path) };
    let found = match found {
        Ok(f) => f,
        Err(m) => return Err(ConfigBumpError::Unparsable(m)),
    };
    let read = if json { json_version(path, &found, config_path) } else { toml_version(path, &found) };
    let version = match read {
        Ok(v) => v,
        Err(m) => return Err(ConfigBumpError::NoVersion(m)),
    };
    let (old, new) = match bump_version_text(version.as_str(), level, release) {
        Ok(pair) => pair,
        Err(e) => return Err(ConfigBumpError::Version(e)),
    };
    proof {
        lemma_first_missing_table(path.len() as int, items(found@), 1);
        assert forall|k: int| 0 <= k < found.len() implies #[trigger] items(found@)[k] == found@[k].item() by {}
    }
    if json {
        if path.len() == 0 {
            return match json_with_version(text, path, new.as_str()) {
                Err(m) => Err(ConfigBumpError::NotWritable(m)),
                _ => Err(ConfigBumpError::NotWritable(String::new())),
            };
        }
        if let Err(m) = json_update_check(path, &found) {
            return Err(ConfigBumpError::NotWritable(m));
        }
        match json_with_version(text, path, new.as_str()) {
            Ok(Some(out)) => Ok((old, new, out)),
            _ => Err(ConfigBumpError::NotWritable(String::new())),
        }
    } else {
        if let Err(m) = toml_update_check(path, &found) {
            return Err(ConfigBumpError::NotWritable(m));
        }
        match toml_with_version(text, path, new.as_str()) {
            Some(out) => Ok((old, new, out)),
            None => Err(ConfigBumpError::NotWritable(String::new())),
        }
    }
}

/// Whether a configuration file is JSON (read and written as JSON) rather than TOML:
/// its extension is `json`.
pub fn is_json_config(config_path: &str) -> (b: bool)
    ensures
        b == (extension(config_path@) == Some("json"@)),
{
    let p = chars_of(config_path);
    let j = chars_of("json");
    match extension_of(&p) {
        Some(e) => equal_chars(&e, &j),
        None => false,
    }
}

/// What a failed check for git changes is reported as.
pub fn git_check_error(e: &str) -> (s: String)
    ensures
        s@ == "Error checking git status: "@ + e@,
{
    concat("Error checking git status: ", e)
}

/// The projects named are just the current directory, `.`.
pub open spec fn only_current_dir(projects: Seq<Seq<char>>) -> bool {
    projects.len() == 1 && projects[0] == "."@
}

/// The message when no project's version was bumped, with the hint that fits how the
/// tool was called.
pub open spec fn no_bump_text(projects: Seq<Seq<char>>, git_aware: bool, allowed: Seq<Seq<char>>) -> Seq<char> {
    "No project versions were bumped."@ + (if only_current_dir(projects) {
        " No supported project configuration file found in the current directory."@
    } else if git_aware {
        " In git-aware mode, this can also occur if no targeted projects had relevant git changes for watched extensions ("@
            + joined(allowed, ","@) + ")."@
    } else {
        Seq::<char>::empty()
    }) + " Please check paths, glob patterns, and ensure a supported project configuration file exists."@
}

/// The message when no project's version was bumped.
pub fn no_bump_message(projects: &[String], git_aware: bool, allowed: &[String]) -> (s: String)
    ensures
        s@ == no_bump_text(string_views(projects@), git_aware, string_views(allowed@)),
{
    let dot = chars_of(".");
    let single_dot = projects.len() == 1 && equal_chars(&chars_of(projects[0].as_str()), &dot);
    let hint = if single_dot {
        " No supported project configuration file found in the current directory.".to_string()
    } else if git_aware {
        let listed = join_strings(allowed, ",");
        let a = concat(
            " In git-aware mode, this can also occur if no targeted projects had relevant git changes for watched extensions (",
            listed.as_str(),
        );
        concat(a.as_str(), ").")
    } else {
        String::new()
    };
    let head = concat("No project versions were bumped.", hint.as_str());
    let r = concat(
        head.as_str(),
        " Please check paths, glob patterns, and ensure a supported project configuration file exists.",
    );
    assert(string_views(projects@).len() == projects@.len());
    assert(projects.len() == 1 ==> string_views(projects@)[0] == projects@[0]@);
    assert(r@ =~= no_bump_text(string_views(projects@), git_aware, string_views(allowed@)));
    r
}

} // verus!
