//! Helpers around records: the content fingerprint, build-system
//! recognition, path classification and byte-count rendering.

use vstd::prelude::*;

verus! {

use std::collections::hash_map::DefaultHasher;
use std::hash::Hasher;

use crate::module::SoftwareModule;
use crate::project::opt_str_view;
use crate::text::append_dec_u64;
use crate::text::contains_bytes;
use crate::text::dec_chars;
use crate::text::dec_digit;
use crate::text::ends_with_bytes;
use crate::text::str_contains;
use crate::text::str_ends_with;
use crate::text::u64_to_dec_string;
use vstd::std_specs::hash::DefaultHasherAdditionalSpecFns;
use vstd::string::StringExecFns;
use vstd::string::StringSliceAdditionalSpecFns;
use vstd::utf8::encode_utf8;

/// The content fingerprint of manifest text: the standard library's
/// default hash of its bytes, rendered in decimal.
pub open spec fn spec_module_hash(content: Seq<char>) -> Seq<char> {
    dec_chars(DefaultHasher::spec_finish(seq![encode_utf8(content)]) as nat)
}

/// The content fingerprint of a module: a deterministic structural hash
/// of its manifest text, used to name the module's record file and to
/// detect duplicates by content. Two modules with identical manifest text
/// always fingerprint alike; the project back-reference takes no part.
pub fn get_module_hash(module: &SoftwareModule) -> (r: String)
    ensures
        r@ == spec_module_hash(module@.manifest),
{
    let mut hasher = DefaultHasher::new();
    hasher.write(module.manifest.as_str().as_bytes());
    let h = hasher.finish();
    proof {
        assert(hasher@ =~= seq![encode_utf8(module@.manifest)]);
    }
    u64_to_dec_string(h)
}

/// The build system that one file path gives away, if any.
pub open spec fn spec_build_system(path: Seq<u8>) -> Option<Seq<char>> {
    if ends_with_bytes(path, encode_utf8("CMakeLists.txt"@)) {
        Some("cmake"@)
    } else if ends_with_bytes(path, encode_utf8("autogen.sh"@)) || ends_with_bytes(
        path,
        encode_utf8("autogen"@),
    ) {
        Some("autotools"@)
    } else if ends_with_bytes(path, encode_utf8("bootstrap.sh"@)) || ends_with_bytes(
        path,
        encode_utf8("bootstrap"@),
    ) {
        Some("autotools"@)
    } else if ends_with_bytes(path, encode_utf8(".pro"@)) {
        Some("qmake"@)
    } else if ends_with_bytes(path, encode_utf8("meson.build"@)) || ends_with_bytes(
        path,
        encode_utf8("meson_options.txt"@),
    ) {
        Some("meson"@)
    } else if ends_with_bytes(path, encode_utf8("Cargo.toml"@)) || ends_with_bytes(
        path,
        encode_utf8("Cargo.lock"@),
    ) {
        Some("cargo"@)
    } else if ends_with_bytes(path, encode_utf8("pom.xml"@)) {
        Some("maven"@)
    } else if ends_with_bytes(path, encode_utf8("debian/control"@)) {
        Some("debian"@)
    } else if ends_with_bytes(path, encode_utf8("snapcraft.yml"@)) || ends_with_bytes(
        path,
        encode_utf8("snapcraft.yaml"@),
    ) {
        Some("snap"@)
    } else if ends_with_bytes(path, encode_utf8("go.mod"@)) || ends_with_bytes(
        path,
        encode_utf8("go.sum"@),
    ) {
        Some("go"@)
    } else if ends_with_bytes(path, encode_utf8("package.json"@)) || ends_with_bytes(
        path,
        encode_utf8("package-lock.json"@),
    ) {
        Some("npm"@)
    } else if ends_with_bytes(path, encode_utf8("pyproject.toml"@)) {
        Some("pip"@)
    } else if ends_with_bytes(path, encode_utf8("vcpkg.json"@)) {
        Some("vcpkg"@)
    } else {
        None
    }
}

/// Detects a build system from the name of one file of the project, going
/// by the well-known manifest file names.
pub fn get_build_system(file_path: String) -> (r: Option<String>)
    ensures
        opt_str_view(r) == spec_build_system(encode_utf8(file_path@)),
{
    let p = file_path.as_str();
    if str_ends_with(p, "CMakeLists.txt") {
        return Some("cmake".to_owned());
    }
    if str_ends_with(p, "autogen.sh") || str_ends_with(p, "autogen") {
        return Some("autotools".to_owned());
    }
    if str_ends_with(p, "bootstrap.sh") || str_ends_with(p, "bootstrap") {
        return Some("autotools".to_owned());
    }
    if str_ends_with(p, ".pro") {
        return Some("qmake".to_owned());
    }
    if str_ends_with(p, "meson.build") || str_ends_with(p, "meson_options.txt") {
        return Some("meson".to_owned());
    }
    if str_ends_with(p, "Cargo.toml") || str_ends_with(p, "Cargo.lock") {
        return Some("cargo".to_owned());
    }
    if str_ends_with(p, "pom.xml") {
        return Some("maven".to_owned());
    }
    if str_ends_with(p, "debian/control") {
        return Some("debian".to_owned());
    }
    if str_ends_with(p, "snapcraft.yml") || str_ends_with(p, "snapcraft.yaml") {
        return Some("snap".to_owned());
    }
    if str_ends_with(p, "go.mod") || str_ends_with(p, "go.sum") {
        return Some("go".to_owned());
    }
    if str_ends_with(p, "package.json") || str_ends_with(p, "package-lock.json") {
        return Some("npm".to_owned());
    }
    if str_ends_with(p, "pyproject.toml") {
        return Some("pip".to_owned());
    }
    if str_ends_with(p, "vcpkg.json") {
        return Some("vcpkg".to_owned());
    }
    None
}

/// Whether a path lies under a version-control or build-cache directory.
pub open spec fn spec_cache_path(p: Seq<u8>) -> bool {
    contains_bytes(p, encode_utf8(".git/"@)) || contains_bytes(
        p,
        encode_utf8(".flatpak-builder/"@),
    ) || contains_bytes(p, encode_utf8(".flatpak-builder-out/"@))
}

/// Whether enumeration must skip this path: version-control and
/// build-cache subtrees are never searched, wherever they sit in the tree.
pub fn is_cache_path(path: &str) -> (r: bool)
    ensures
        r == spec_cache_path(path.spec_bytes()),
{
    if str_contains(path, ".git/") {
        return true;
    }
    if str_contains(path, ".flatpak-builder/") {
        return true;
    }
    if str_contains(path, ".flatpak-builder-out/") {
        return true;
    }
    false
}

/// Whether a path carries one of the two recognized record-document
/// suffixes.
pub open spec fn spec_record_path(p: Seq<u8>) -> bool {
    ends_with_bytes(p, encode_utf8("yml"@)) || ends_with_bytes(p, encode_utf8("yaml"@))
}

/// Whether a file is to be read as a record document; anything else under
/// the storage directories is ignored without error.
pub fn is_record_path(path: &str) -> (r: bool)
    ensures
        r == spec_record_path(path.spec_bytes()),
{
    if str_ends_with(path, "yml") {
        return true;
    }
    if str_ends_with(path, "yaml") {
        return true;
    }
    false
}

/// The unit suffix for each power of 1024.
pub open spec fn unit_chars(i: int) -> Seq<char> {
    if i == 0 {
        "B"@
    } else if i == 1 {
        "KB"@
    } else if i == 2 {
        "MB"@
    } else if i == 3 {
        "GB"@
    } else {
        "TB"@
    }
}

/// Which unit a byte count is rendered in: the largest power of 1024 at
/// or below the value, capped at the last unit.
pub open spec fn spec_unit_index(b: nat) -> int {
    if b < 1024 {
        0
    } else if b < 1048576 {
        1
    } else if b < 1073741824 {
        2
    } else if b < 1099511627776 {
        3
    } else {
        4
    }
}

/// 1024 raised to each unit index in use.
pub open spec fn pow1024(i: int) -> nat {
    if i <= 0 {
        1
    } else if i == 1 {
        1024
    } else if i == 2 {
        1048576
    } else if i == 3 {
        1073741824
    } else {
        1099511627776
    }
}

/// `n / d` rounded to the nearest integer, ties to the even neighbour,
/// which is how a binary fraction prints with fixed precision.
pub open spec fn round_half_even(n: nat, d: nat) -> nat
    recommends
        d > 0,
{
    let q = n / d;
    let r2 = 2 * (n % d);
    if r2 > d {
        q + 1
    } else if r2 < d {
        q
    } else if q % 2 == 0 {
        q
    } else {
        q + 1
    }
}

/// Two decimal digits, with a leading zero.
pub open spec fn dec_chars2(n: nat) -> Seq<char> {
    seq![dec_digit((n / 10) as int), dec_digit((n % 10) as int)]
}

/// The rendering of a byte count: the value divided by the unit's power
/// of 1024, rounded half to even at the second decimal, then the unit.
pub open spec fn spec_format_bytes(bytes: nat) -> Seq<char> {
    let i = spec_unit_index(bytes);
    let cents = round_half_even(100 * bytes, pow1024(i));
    dec_chars(cents / 100) + seq!['.'] + dec_chars2(cents % 100) + seq![' '] + unit_chars(i)
}

fn unit_str(i: usize) -> (r: &'static str)
    requires
        i <= 4,
    ensures
        r@ == unit_chars(i as int),
{
    let r: &'static str = if i == 0 {
        "B"
    } else if i == 1 {
        "KB"
    } else if i == 2 {
        "MB"
    } else if i == 3 {
        "GB"
    } else {
        "TB"
    };
    r
}

fn append_dec2_u64(out: &mut String, n: u64)
    requires
        n < 100,
    ensures
        final(out)@ == old(out)@ + dec_chars2(n as nat),
{
    let tens: u64 = n / 10;
    let ones: u64 = n % 10;
    let ghost mid = out@;
    append_dec_u64(out, tens);
    append_dec_u64(out, ones);
    proof {
        assert(dec_chars(tens as nat) == seq![dec_digit(tens as int)]);
        assert(dec_chars(ones as nat) == seq![dec_digit(ones as int)]);
        assert(final(out)@ =~= old(out)@ + dec_chars2(n as nat));
    }
}

/// Renders a byte count for people: two decimals and a unit from "B" up
/// to "TB". Counts at or beyond 1024 to the fifth have no unit here and
/// are left out.
pub fn format_bytes(bytes: usize) -> (r: String)
    requires
        bytes < 0x4000000000000,
    ensures
        r@ == spec_format_bytes(bytes as nat),
{
    let b = bytes as u64;
    let i: usize = if b < 1024 {
        0
    } else if b < 1048576 {
        1
    } else if b < 1073741824 {
        2
    } else if b < 1099511627776 {
        3
    } else {
        4
    };
    let d: u64 = if b < 1024 {
        1
    } else if b < 1048576 {
        1024
    } else if b < 1073741824 {
        1048576
    } else if b < 1099511627776 {
        1073741824
    } else {
        1099511627776
    };
    let n: u64 = 100 * b;
    let q: u64 = n / d;
    let rem: u64 = n % d;
    let r2: u64 = 2 * rem;
    let cents: u64 = if r2 > d {
        q + 1
    } else if r2 < d {
        q
    } else if q % 2 == 0 {
        q
    } else {
        q + 1
    };
    proof {
        assert(i as int == spec_unit_index(bytes as nat));
        assert(d as nat == pow1024(i as int));
        assert(cents as nat == round_half_even(100 * (bytes as nat), pow1024(i as int)));
    }
    let mut s = String::new();
    append_dec_u64(&mut s, cents / 100);
    s.append(".");
    append_dec2_u64(&mut s, cents % 100);
    s.append(" ");
    s.append(unit_str(i));
    proof {
        reveal_strlit(".");
        reveal_strlit(" ");
        assert("."@ =~= seq!['.']);
        assert(" "@ =~= seq![' ']);
        assert(s@ =~= spec_format_bytes(bytes as nat));
    }
    s
}

/// Whether a line read as an answer, once a trailing newline is removed,
/// says yes: exactly "Y" or "y".
pub open spec fn spec_yes_answer(b: Seq<u8>) -> bool {
    let t0 = if b.len() > 0 && b.last() == 10 {
        b.drop_last()
    } else {
        b
    };
    let t = if t0.len() > 0 && t0.last() == 13 {
        t0.drop_last()
    } else {
        t0
    };
    t == seq![('Y' as u8)] || t == seq![('y' as u8)]
}

/// Decides a yes/no answer line: trailing line-feed and carriage-return
/// characters are stripped, then only "Y" and "y" mean yes.
pub fn parse_yes_no(answer: &str) -> (r: bool)
    ensures
        r == spec_yes_answer(answer.spec_bytes()),
{
    let bytes = answer.as_bytes();
    let mut end: usize = bytes.len();
    if end > 0 && bytes[end - 1] == 10 {
        end -= 1;
    }
    proof {
        assert(bytes@.subrange(0, end as int) =~= (if bytes@.len() > 0 && bytes@.last() == 10 {
            bytes@.drop_last()
        } else {
            bytes@
        }));
    }
    let ghost t0 = bytes@.subrange(0, end as int);
    if end > 0 && bytes[end - 1] == 13 {
        proof {
            assert(t0.last() == 13);
        }
        end -= 1;
    }
    proof {
        assert(bytes@.subrange(0, end as int) =~= (if t0.len() > 0 && t0.last() == 13 {
            t0.drop_last()
        } else {
            t0
        }));
    }
    let ghost t = bytes@.subrange(0, end as int);
    if end != 1 {
        proof {
            assert(t.len() != 1);
        }
        return false;
    }
    let c = bytes[0];
    proof {
        assert(t =~= seq![bytes@[0]]);
        assert(t[0] == c);
        if t == seq![('Y' as u8)] {
            assert(t[0] == ('Y' as u8));
        }
        if t == seq![('y' as u8)] {
            assert(t[0] == ('y' as u8));
        }
    }
    c == ('Y' as u8) || c == ('y' as u8)
}

} // verus!
