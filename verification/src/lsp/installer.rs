//! Fetches language servers, checks them and keeps them.
//!
//! What is done next is decided here; the caller does it and says what came of
//! it. Nothing is unpacked whose checksum is not the expected one.

use super::discovery;
use crate::paths;
use crate::text;
use crate::types::Language;
use sha2::{Digest, Sha256};
use vstd::prelude::*;
use vstd::string::*;

verus! {

/// How a download is packed.
#[derive(Clone, Copy, Debug, PartialEq, Eq, Structural)]
pub enum ArchiveFormat {
    TarGz,
    Zip,
    /// Not packed: the program itself.
    Raw,
}

/// What is to be installed.
#[derive(Debug, PartialEq, Eq)]
pub struct InstallSpec {
    /// The directory of the server, such as `clangd`.
    pub name: String,
    /// The directory of the version, such as `18.1.3`.
    pub version: String,
    pub url: String,
    /// The SHA-256 of the download, in hexadecimal digits.
    pub sha256: String,
    pub archive: ArchiveFormat,
    /// The path of the program below the directory of the version.
    pub binary_relative: String,
}

// ----------------------------------------------------------------- settings

/// What happens where a server is missing.
#[derive(Clone, Copy, Debug, PartialEq, Eq, Structural)]
pub enum AutoInstallMode {
    /// Nothing is fetched before the user agrees.
    Prompt,
    /// Nothing is fetched.
    Off,
    /// The server is fetched.
    On,
}

impl Default for AutoInstallMode {
    fn default() -> (r: AutoInstallMode)
        ensures
            r == AutoInstallMode::Prompt,
    {
        AutoInstallMode::Prompt
    }
}

/// The setting that says whether servers are installed without asking.
pub const ENV_AUTO_INSTALL: &'static str = "ASTROLABE_AUTO_INSTALL";

/// The setting that names a mirror.
pub const ENV_MIRROR_GITHUB: &'static str = "ASTROLABE_MIRROR_GITHUB";

/// The setting that forbids downloads.
pub const ENV_OFFLINE: &'static str = "ASTROLABE_OFFLINE";

/// The mode that a setting asks for.
pub open spec fn mode_of(setting: Seq<char>) -> AutoInstallMode {
    let s = text::ascii_lower(text::trimmed(setting));
    if s == "off"@ || s == "0"@ || s == "false"@ || s == "no"@ {
        AutoInstallMode::Off
    } else if s == "on"@ || s == "1"@ || s == "true"@ || s == "yes"@ {
        AutoInstallMode::On
    } else {
        AutoInstallMode::Prompt
    }
}

/// What a mode is called.
pub open spec fn mode_name(mode: AutoInstallMode) -> Seq<char> {
    match mode {
        AutoInstallMode::Prompt => "prompt"@,
        AutoInstallMode::Off => "off"@,
        AutoInstallMode::On => "on"@,
    }
}

fn plain_setting(setting: &str) -> (r: String)
    ensures
        r@ == text::ascii_lower(text::trimmed(setting@)),
{
    let t = text::string_of(&text::trim(&text::chars_of(setting)));
    text::to_ascii_lower(t.as_str())
}

impl AutoInstallMode {
    /// The mode that a setting asks for. What it does not understand, and no
    /// setting, asks for the user to be asked.
    pub fn from_env(setting: &str) -> (r: AutoInstallMode)
        ensures
            r == mode_of(setting@),
    {
        let s = plain_setting(setting);
        if text::same(s.as_str(), "off") || text::same(s.as_str(), "0") || text::same(
            s.as_str(),
            "false",
        ) || text::same(s.as_str(), "no") {
            AutoInstallMode::Off
        } else if text::same(s.as_str(), "on") || text::same(s.as_str(), "1") || text::same(
            s.as_str(),
            "true",
        ) || text::same(s.as_str(), "yes") {
            AutoInstallMode::On
        } else {
            AutoInstallMode::Prompt
        }
    }

    pub fn as_str(self) -> (r: &'static str)
        ensures
            r@ == mode_name(self),
    {
        match self {
            AutoInstallMode::Prompt => "prompt",
            AutoInstallMode::Off => "off",
            AutoInstallMode::On => "on",
        }
    }
}

/// Whether a setting is switched on.
pub fn env_truthy(setting: &str) -> (r: bool)
    ensures
        r == ({
            let s = text::ascii_lower(text::trimmed(setting@));
            s == "1"@ || s == "true"@ || s == "yes"@ || s == "on"@
        }),
{
    let s = plain_setting(setting);
    text::same(s.as_str(), "1") || text::same(s.as_str(), "true") || text::same(
        s.as_str(),
        "yes",
    ) || text::same(s.as_str(), "on")
}

/// Where servers are kept, below the home directory or, without one, below the
/// current one.
pub fn default_servers_dir(home: Option<&str>) -> (r: String)
    ensures
        r@ == paths::below(
            paths::below(
                match home {
                    Some(h) => h@,
                    None => "."@,
                },
                ".astrolabe"@,
            ),
            "servers"@,
        ),
{
    let base = match home {
        Some(h) => h,
        None => ".",
    };
    let own = paths::join(base, ".astrolabe");
    paths::join(own.as_str(), "servers")
}

/// `s` without slashes at its end.
pub open spec fn without_end_slashes(s: Seq<char>) -> Seq<char>
    decreases s.len(),
{
    if s.len() > 0 && s.last() == '/' {
        without_end_slashes(s.drop_last())
    } else {
        s
    }
}

/// A URL with the address of GitHub replaced by that of a mirror, if there is one.
pub open spec fn mirrored(url: Seq<char>, mirror: Option<Seq<char>>) -> Seq<char> {
    match mirror {
        Some(m) => if m.len() > 0 && text::stands_at(url, "https://github.com/"@, 0) {
            without_end_slashes(m) + "/"@ + url.skip(19)
        } else {
            url
        },
        None => url,
    }
}

/// Replaces the address of GitHub by that of a mirror, if there is one.
pub fn rewrite_mirror(url: &str, mirror: Option<&str>) -> (r: String)
    ensures
        r@ == mirrored(
            url@,
            match mirror {
                Some(m) => Some(m@),
                None => None,
            },
        ),
{
    proof {
        reveal_strlit("https://github.com/");
    }
    let chars = text::chars_of(url);
    if let Some(m) = mirror {
        let base = text::chars_of(m);
        if base.len() > 0 && text::starts_with(&chars, &text::chars_of("https://github.com/")) {
            let stem = text::string_of(&strip_end_slashes(&base));
            let rest = text::slice_of(&chars, 19, chars.len());
            assert(rest@ =~= url@.skip(19));
            return stem.concat("/").concat(text::string_of(&rest).as_str());
        }
    }
    text::string_of(&chars)
}

fn strip_end_slashes(s: &[char]) -> (out: Vec<char>)
    ensures
        out@ == without_end_slashes(s@),
{
    let mut to: usize = s.len();
    assert(s@.take(to as int) =~= s@);
    while to > 0 && s[to - 1] == '/'
        invariant
            to <= s@.len(),
            without_end_slashes(s@) == without_end_slashes(
                s@.take(to as int),
            ),
        decreases to,
    {
        assert(s@.take(to as int).drop_last() =~= s@.take(to as int - 1));
        to = to - 1;
    }
    let out = text::slice_of(s, 0, to);
    assert(out@ =~= s@.take(to as int));
    out
}

// ------------------------------------------------------------------- hints

/// How a missing server is installed.
#[derive(Debug, PartialEq, Eq)]
pub struct InstallHint {
    pub language: Language,
    pub server_name: String,
    /// How to install it by hand.
    pub message: String,
    /// Whether it is known where to get it.
    pub auto_installable: bool,
    pub mode: AutoInstallMode,
    /// Where it would be kept.
    pub cache_dir: String,
}

/// A hint in words.
pub open spec fn hint_summary(h: InstallHint) -> Seq<char> {
    if h.auto_installable {
        h.message@ + " Auto-install is available when ASTROLABE_AUTO_INSTALL=on (current mode: "@
            + mode_name(h.mode) + ")."@
    } else {
        h.message@
    }
}

impl InstallHint {
    pub fn summary(&self) -> (r: String)
        ensures
            r@ == hint_summary(*self),
    {
        if self.auto_installable {
            self.message.clone().concat(
                " Auto-install is available when ASTROLABE_AUTO_INSTALL=on (current mode: ",
            ).concat(self.mode.as_str()).concat(").")
        } else {
            self.message.clone()
        }
    }
}

/// A missing server, with what is to be installed if the user agrees.
#[derive(Debug, PartialEq, Eq)]
pub struct NeedsInstall {
    pub hint: InstallHint,
    pub spec: Option<InstallSpec>,
}

impl NeedsInstall {
    pub fn message(&self) -> (r: String)
        ensures
            r@ == hint_summary(self.hint),
    {
        self.hint.summary()
    }
}

/// What is said of a missing server.
pub fn needs_install_for(
    language: Language,
    message: &str,
    server_name: &str,
    spec: Option<InstallSpec>,
    mode: AutoInstallMode,
    cache_root: &str,
) -> (r: NeedsInstall)
    ensures
        r.hint.language == language,
        r.hint.server_name@ == server_name@,
        r.hint.message@ == message@,
        r.hint.auto_installable == (spec is Some),
        r.hint.mode == mode,
        r.hint.cache_dir@ == paths::below(cache_root@, server_name@),
        r.spec == spec,
{
    NeedsInstall {
        hint: InstallHint {
            language,
            server_name: text::string_of(&text::chars_of(server_name)),
            message: text::string_of(&text::chars_of(message)),
            auto_installable: spec.is_some(),
            mode,
            cache_dir: paths::join(cache_root, server_name),
        },
        spec,
    }
}

// ------------------------------------------------------------------- errors

/// Why nothing was installed.
#[derive(Debug, PartialEq, Eq)]
pub enum InstallError {
    Offline(String),
    MissingChecksum(String),
    ChecksumMismatch { name: String, expected: String, actual: String },
    Download(String, String),
    Extract(String, String),
    Lock(String, String),
    Io(String, String),
    InvalidSpec(String, String),
}

/// The message of an error.
pub open spec fn error_text(e: InstallError) -> Seq<char> {
    match e {
        InstallError::Offline(name) => "offline mode (ASTROLABE_OFFLINE) refuses download of "@
            + name@,
        InstallError::MissingChecksum(name) => "checksum missing for "@ + name@
            + "; refusing unverified install"@,
        InstallError::ChecksumMismatch { name, expected, actual } => "checksum mismatch for "@
            + name@ + ": expected "@ + expected@ + ", got "@ + actual@,
        InstallError::Download(name, why) => "download failed for "@ + name@ + ": "@ + why@,
        InstallError::Extract(name, why) => "extract failed for "@ + name@ + ": "@ + why@,
        InstallError::Lock(name, why) => "install lock busy for "@ + name@ + ": "@ + why@,
        InstallError::Io(name, why) => "io error during install of "@ + name@ + ": "@ + why@,
        InstallError::InvalidSpec(name, why) => "invalid install spec for "@ + name@ + ": "@
            + why@,
    }
}

impl InstallError {
    /// The message.
    pub fn message(&self) -> (r: String)
        ensures
            r@ == error_text(*self),
    {
        match self {
            InstallError::Offline(name) => String::from_str(
                "offline mode (ASTROLABE_OFFLINE) refuses download of ",
            ).concat(name.as_str()),
            InstallError::MissingChecksum(name) => String::from_str("checksum missing for ").concat(
                name.as_str(),
            ).concat("; refusing unverified install"),
            InstallError::ChecksumMismatch { name, expected, actual } => String::from_str(
                "checksum mismatch for ",
            ).concat(name.as_str()).concat(": expected ").concat(expected.as_str()).concat(
                ", got ",
            ).concat(actual.as_str()),
            InstallError::Download(name, why) => String::from_str("download failed for ").concat(
                name.as_str(),
            ).concat(": ").concat(why.as_str()),
            InstallError::Extract(name, why) => String::from_str("extract failed for ").concat(
                name.as_str(),
            ).concat(": ").concat(why.as_str()),
            InstallError::Lock(name, why) => String::from_str("install lock busy for ").concat(
                name.as_str(),
            ).concat(": ").concat(why.as_str()),
            InstallError::Io(name, why) => String::from_str("io error during install of ").concat(
                name.as_str(),
            ).concat(": ").concat(why.as_str()),
            InstallError::InvalidSpec(name, why) => String::from_str(
                "invalid install spec for ",
            ).concat(name.as_str()).concat(": ").concat(why.as_str()),
        }
    }
}

// -------------------------------------------------------------------- specs

/// A text can be the name of a directory and of nothing outside it.
pub open spec fn is_segment(s: Seq<char>) -> bool {
    s.len() > 0 && !s.contains('/') && !s.contains('\\') && !text::contains_text(s, ".."@)
}

/// What is wrong with what is to be installed, if anything is.
pub open spec fn fault_of(s: InstallSpec) -> Option<Seq<char>> {
    if !is_segment(s.name@) {
        Some("name must be a single path segment"@)
    } else if !is_segment(s.version@) {
        Some("version must be a single path segment"@)
    } else if s.binary_relative@.len() == 0 || paths::is_absolute(s.binary_relative@)
        || paths::climbs(paths::parts_of(s.binary_relative@)) {
        Some("binary_relative must be a relative path without .."@)
    } else {
        None
    }
}

fn one_segment(s: &str) -> (r: bool)
    ensures
        r == is_segment(s@),
{
    let chars = text::chars_of(s);
    chars.len() > 0 && !text::has_char(&chars, '/') && !text::has_char(&chars, '\\')
        && !text::has_text(&chars, &text::chars_of(".."))
}

/// Whether what is to be installed stays where it belongs.
pub fn validate_spec(spec: &InstallSpec) -> (r: Result<(), InstallError>)
    ensures
        match fault_of(*spec) {
            None => r is Ok,
            Some(fault) => r matches Err(InstallError::InvalidSpec(name, why)) && name@
                == spec.name@ && why@ == fault,
        },
{
    if !one_segment(spec.name.as_str()) {
        return Err(
            InstallError::InvalidSpec(
                spec.name.clone(),
                String::from_str("name must be a single path segment"),
            ),
        );
    }
    if !one_segment(spec.version.as_str()) {
        return Err(
            InstallError::InvalidSpec(
                spec.name.clone(),
                String::from_str("version must be a single path segment"),
            ),
        );
    }
    let rel = text::chars_of(spec.binary_relative.as_str());
    let parts = paths::components(&rel);
    assert(text::rows(parts@).skip(0) =~= text::rows(parts@));
    if rel.len() == 0 || rel[0] == '/' || paths::has_parent(&parts, 0) {
        return Err(
            InstallError::InvalidSpec(
                spec.name.clone(),
                String::from_str("binary_relative must be a relative path without .."),
            ),
        );
    }
    Ok(())
}

/// The directory of a version.
pub open spec fn version_dir_of(s: InstallSpec, root: Seq<char>) -> Seq<char> {
    paths::below(paths::below(root, s.name@), s.version@)
}

/// The path of the program.
pub open spec fn binary_path_of(s: InstallSpec, root: Seq<char>) -> Seq<char> {
    paths::below(version_dir_of(s, root), s.binary_relative@)
}

/// The path of the file that says that a version is complete.
pub open spec fn marker_path_of(s: InstallSpec, root: Seq<char>) -> Seq<char> {
    paths::below(version_dir_of(s, root), ".installed"@)
}

/// The directory that holds the directory of a version. The version `.` is the
/// directory of the server itself.
pub open spec fn holder_of(s: InstallSpec, root: Seq<char>) -> Seq<char> {
    if s.version@ == "."@ {
        root
    } else {
        paths::below(root, s.name@)
    }
}

/// The path of the lock of a version.
pub open spec fn lock_path_of(s: InstallSpec, root: Seq<char>) -> Seq<char> {
    paths::below(holder_of(s, root), "."@ + s.version@ + ".install.lock"@)
}

/// What is written into the file that says that a version is complete.
pub open spec fn marker_text_of(s: InstallSpec) -> Seq<char> {
    "name="@ + s.name@ + "\nversion="@ + s.version@ + "\nsha256="@ + s.sha256@ + "\nurl="@ + s.url@
        + "\n"@
}

impl InstallSpec {
    pub fn version_dir(&self, cache_root: &str) -> (r: String)
        ensures
            r@ == version_dir_of(*self, cache_root@),
    {
        let own = paths::join(cache_root, self.name.as_str());
        paths::join(own.as_str(), self.version.as_str())
    }

    pub fn binary_path(&self, cache_root: &str) -> (r: String)
        ensures
            r@ == binary_path_of(*self, cache_root@),
    {
        let dir = self.version_dir(cache_root);
        paths::join(dir.as_str(), self.binary_relative.as_str())
    }

    pub fn marker_path(&self, cache_root: &str) -> (r: String)
        ensures
            r@ == marker_path_of(*self, cache_root@),
    {
        let dir = self.version_dir(cache_root);
        paths::join(dir.as_str(), ".installed")
    }

    /// The directory that holds the directory of the version.
    pub fn holder(&self, cache_root: &str) -> (r: String)
        ensures
            r@ == holder_of(*self, cache_root@),
    {
        if text::same(self.version.as_str(), ".") {
            text::string_of(&text::chars_of(cache_root))
        } else {
            paths::join(cache_root, self.name.as_str())
        }
    }

    pub fn lock_path(&self, cache_root: &str) -> (r: String)
        ensures
            r@ == lock_path_of(*self, cache_root@),
    {
        let holder = self.holder(cache_root);
        let name = String::from_str(".").concat(self.version.as_str()).concat(".install.lock");
        paths::join(holder.as_str(), name.as_str())
    }

    /// Where a download is unpacked before it takes its place. `stamp` tells two
    /// attempts apart.
    pub fn staging_path(&self, cache_root: &str, stamp: &str) -> (r: String)
        ensures
            r@ == paths::below(
                holder_of(*self, cache_root@),
                "."@ + (match discovery::file_name_of(version_dir_of(*self, cache_root@)) {
                    Some(name) => name,
                    None => "pkg"@,
                }) + ".staging-"@ + stamp@,
            ),
    {
        let dir = self.version_dir(cache_root);
        let name = match discovery::file_name(&text::chars_of(dir.as_str())) {
            Some(n) => text::string_of(&n),
            None => String::from_str("pkg"),
        };
        let holder = self.holder(cache_root);
        let own = String::from_str(".").concat(name.as_str()).concat(".staging-").concat(stamp);
        paths::join(holder.as_str(), own.as_str())
    }

    pub fn marker_text(&self) -> (r: String)
        ensures
            r@ == marker_text_of(*self),
    {
        String::from_str("name=").concat(self.name.as_str()).concat("\nversion=").concat(
            self.version.as_str(),
        ).concat("\nsha256=").concat(self.sha256.as_str()).concat("\nurl=").concat(
            self.url.as_str(),
        ).concat("\n")
    }
}

// ----------------------------------------------------------------- checksum

/// How many bytes can be hashed: their number in bits has to fit into 64 bits.
pub const MAX_DIGEST_BYTES: u64 = 0x1fff_ffff_ffff_ffff;

/// The SHA-256 of bytes.
pub uninterp spec fn sha256(bytes: Seq<u8>) -> Seq<u8>;

/// `sha2`'s `Sha256::digest`: 32 bytes, named [`sha256`].
#[verifier::external_body]
fn digest(bytes: &Vec<u8>) -> (r: Vec<u8>)
    requires
        bytes@.len() <= MAX_DIGEST_BYTES,
    ensures
        r@ == sha256(bytes@),
        r@.len() == 32,
{
    Sha256::digest(bytes).to_vec()
}

/// A hexadecimal digit in lower case.
pub open spec fn low_hex(v: u8) -> char {
    if v < 10 {
        (48 + v) as u8 as char
    } else {
        (87 + v) as u8 as char
    }
}

/// Bytes in hexadecimal digits, two for each.
pub open spec fn hex_text(bytes: Seq<u8>) -> Seq<char>
    decreases bytes.len(),
{
    if bytes.len() == 0 {
        Seq::empty()
    } else {
        hex_text(bytes.drop_last()) + seq![low_hex(bytes.last() / 16), low_hex(bytes.last() % 16)]
    }
}

/// `hex::encode`: two lower-case hexadecimal digits for each byte, the upper half
/// first.
#[verifier::external_body]
fn hex_of(bytes: &Vec<u8>) -> (r: String)
    ensures
        r@ == hex_text(bytes@),
{
    hex::encode(bytes)
}

/// The checksum that a download must have.
pub open spec fn expected_sum(s: InstallSpec) -> Seq<char> {
    text::ascii_lower(text::trimmed(s.sha256@))
}

/// The checksum of a download.
pub open spec fn actual_sum(bytes: Seq<u8>) -> Seq<char> {
    hex_text(sha256(bytes))
}

/// Compares two checksums, and says which they are where they differ.
pub fn judge_sum(spec: &InstallSpec, actual: String) -> (r: Result<(), InstallError>)
    ensures
        if actual@ == expected_sum(*spec) {
            r is Ok
        } else {
            r matches Err(InstallError::ChecksumMismatch { name, expected, actual: got }) && name@
                == spec.name@ && expected@ == expected_sum(*spec) && got@ == actual@
        },
{
    let expected = plain_setting(spec.sha256.as_str());
    if text::same(actual.as_str(), expected.as_str()) {
        Ok(())
    } else {
        Err(InstallError::ChecksumMismatch { name: spec.name.clone(), expected, actual })
    }
}

/// Checks a download.
pub fn verify_download(spec: &InstallSpec, bytes: &Vec<u8>) -> (r: Result<(), InstallError>)
    requires
        bytes@.len() <= MAX_DIGEST_BYTES,
    ensures
        if actual_sum(bytes@) == expected_sum(*spec) {
            r is Ok
        } else {
            r matches Err(InstallError::ChecksumMismatch { name, expected, actual }) && name@
                == spec.name@ && expected@ == expected_sum(*spec) && actual@ == actual_sum(bytes@)
        },
{
    judge_sum(spec, hex_of(&digest(bytes)))
}

} // verus!
