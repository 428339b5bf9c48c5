//! The argument of the `smsg` attribute: where the schema comes from.
//!
//! Two forms are accepted: a bare string literal, `"path/to/file.smsg"`,
//! which names a single schema file; and comma-separated settings,
//! `type = file, path = "..."` or `type = package, path = "..."`, where
//! `category` may stand in place of `type`.
use vstd::prelude::*;

use crate::text::{
    chars_eq, is_whitespace, lemma_split_first, lemma_split_none, lemma_strip_is, split,
    split_chars, starts_with, starts_with_chars, strip, strip_chars, string_of_chars, to_chars, trim,
    trim_chars, CharClass,
};

verus! {

/// Whether the schema is a single file or a package directory.
#[derive(Debug, Clone, Copy, PartialEq, Eq, Structural)]
pub enum SmsgCategory {
    File,
    Package,
}

/// The parsed attribute argument.
#[derive(Debug)]
pub struct SmsgAttribute {
    pub category: SmsgCategory,
    pub path: String,
}

/// The text after the first `=` of a setting, up to a second `=` if any.
pub open spec fn setting_value(part: Seq<char>) -> Option<Seq<char>> {
    let pieces = split(part, '=');
    if pieces.len() > 1 {
        Some(pieces[1])
    } else {
        None
    }
}

/// `s` without the `"` characters at both of its ends.
pub open spec fn strip_quotes(s: Seq<char>) -> Seq<char> {
    strip(s, CharClass::Is('"'))
}

pub open spec fn invalid_category_message(value: Seq<char>) -> Seq<char> {
    "Invalid category: "@ + value + ". Expected 'file' or 'package'"@
}

/// The category that the value `val` of a category setting selects.
pub open spec fn category_named(val: Seq<char>) -> SmsgCategory {
    if val == "package"@ {
        SmsgCategory::Package
    } else {
        SmsgCategory::File
    }
}

pub open spec fn malformed_message() -> Seq<char> {
    "expected `type = identifier` or path string"@
}

/// The settings `parts[i..]` read in order, starting from category `cat`
/// and path `path`. The category is set by `category = ...` or `type = ...`,
/// the path by `path = "..."`; a later setting overrides an earlier one. An
/// unknown category, and a non-empty part that is no setting, are errors;
/// empty parts are skipped.
pub open spec fn scan_settings(
    parts: Seq<Seq<char>>,
    i: int,
    cat: SmsgCategory,
    path: Seq<char>,
) -> Result<(SmsgCategory, Seq<char>), Seq<char>>
    decreases parts.len() - i,
{
    if i < 0 || i >= parts.len() {
        Ok((cat, path))
    } else {
        let p = trim(parts[i]);
        if starts_with(p, "category"@) || starts_with(p, "type"@) {
            let v = match setting_value(p) {
                Some(x) => trim(x),
                None => seq![],
            };
            if v == "package"@ {
                scan_settings(parts, i + 1, SmsgCategory::Package, path)
            } else if v == "file"@ {
                scan_settings(parts, i + 1, SmsgCategory::File, path)
            } else {
                Err(invalid_category_message(v))
            }
        } else if starts_with(p, "path"@) {
            let v = match setting_value(p) {
                Some(x) => strip_quotes(trim(x)),
                None => seq![],
            };
            scan_settings(parts, i + 1, cat, v)
        } else if p.len() > 0 {
            Err(malformed_message())
        } else {
            scan_settings(parts, i + 1, cat, path)
        }
    }
}

/// What the attribute argument `attr` gives: its category and path, or the
/// message of the error.
pub open spec fn spec_parse_attribute(attr: Seq<char>) -> Result<(SmsgCategory, Seq<char>), Seq<char>> {
    let a = trim(attr);
    if a.len() > 0 && a[0] == '"' {
        Ok((SmsgCategory::File, strip_quotes(a)))
    } else {
        match scan_settings(split(a, ','), 0, SmsgCategory::File, seq![]) {
            Err(m) => Err(m),
            Ok((cat, path)) => if path.len() == 0 {
                Err("path is required"@)
            } else {
                Ok((cat, path))
            },
        }
    }
}

/// The value of the setting `p`, as `split('=').nth(1)` gives it.
fn setting_value_of(p: &[char]) -> (r: Option<Vec<char>>)
    ensures
        match setting_value(p@) {
            Some(v) => r matches Some(x) && x@ == v,
            None => r is None,
        },
{
    let pieces = split_chars(p, '=');
    if pieces.len() > 1 {
        Some(vstd::slice::slice_to_vec(pieces[1].as_slice()))
    } else {
        None
    }
}

impl SmsgAttribute {
    /// Parses the attribute argument `attr`.
    ///
    /// A bare string literal names a file. Otherwise the settings
    /// `type = file|package` (or `category = ...`) and `path = "..."` are
    /// read; the category defaults to `file`, any other non-empty part is an
    /// error, and the path must be given and not be empty.
    pub fn parse(attr: &str) -> (r: Result<Self, String>)
        ensures
            match spec_parse_attribute(attr@) {
                Ok((c, p)) => r matches Ok(a) && a.category == c && a.path@ == p,
                Err(m) => r matches Err(e) && e@ == m,
            },
    {
        let chars = to_chars(attr);
        let a = trim_chars(chars.as_slice());
        if a.len() > 0 && a[0] == '"' {
            let path = strip_chars(a.as_slice(), CharClass::Is('"'));
            return Ok(SmsgAttribute { category: SmsgCategory::File, path: string_of_chars(path.as_slice()) });
        }
        let parts = split_chars(a.as_slice(), ',');
        let ghost ps = split(a@, ',');
        let kw_category = to_chars("category");
        let kw_type = to_chars("type");
        let kw_path = to_chars("path");
        let kw_package = to_chars("package");
        let kw_file = to_chars("file");
        let mut category = SmsgCategory::File;
        let mut path: Vec<char> = Vec::new();
        let mut k: usize = 0;
        while k < parts.len()
            invariant
                a@ == trim(attr@),
                !(a@.len() > 0 && a@[0] == '"'),
                ps == split(a@, ','),
                parts.len() == ps.len(),
                forall|j: int| 0 <= j < parts.len() ==> (#[trigger] parts[j])@ == ps[j],
                kw_category@ == "category"@,
                kw_type@ == "type"@,
                kw_path@ == "path"@,
                kw_package@ == "package"@,
                kw_file@ == "file"@,
                k <= parts.len(),
                scan_settings(ps, 0, SmsgCategory::File, seq![]) == scan_settings(
                    ps,
                    k as int,
                    category,
                    path@,
                ),
            decreases parts.len() - k,
        {
            let part = trim_chars(parts[k].as_slice());
            if starts_with_chars(part.as_slice(), kw_category.as_slice()) || starts_with_chars(
                part.as_slice(),
                kw_type.as_slice(),
            ) {
                let value = match setting_value_of(part.as_slice()) {
                    Some(x) => trim_chars(x.as_slice()),
                    None => Vec::new(),
                };
                if chars_eq(value.as_slice(), kw_package.as_slice()) {
                    category = SmsgCategory::Package;
                } else if chars_eq(value.as_slice(), kw_file.as_slice()) {
                    category = SmsgCategory::File;
                } else {
                    let mut m = String::from_str("Invalid category: ");
                    let v = string_of_chars(value.as_slice());
                    m.append(v.as_str());
                    m.append(". Expected 'file' or 'package'");
                    return Err(m);
                }
            } else if starts_with_chars(part.as_slice(), kw_path.as_slice()) {
                path = match setting_value_of(part.as_slice()) {
                    Some(x) => {
                        let t = trim_chars(x.as_slice());
                        strip_chars(t.as_slice(), CharClass::Is('"'))
                    },
                    None => Vec::new(),
                };
            } else if part.len() > 0 {
                return Err(String::from_str("expected `type = identifier` or path string"));
            }
            k = k + 1;
        }
        if path.len() == 0 {
            return Err(String::from_str("path is required"));
        }
        Ok(SmsgAttribute { category, path: string_of_chars(path.as_slice()) })
    }
}

/// A path that can be written in either form of the attribute: not empty,
/// and without `"`, `,` or `=`.
pub open spec fn plain_path(p: Seq<char>) -> bool {
    &&& p.len() > 0
    &&& forall|j: int| 0 <= j < p.len() ==> (#[trigger] p[j]) != '"' && p[j] != ',' && p[j] != '='
}

/// `"x"` with a plain path `x` between the quotes has `x` as its value.
proof fn lemma_quoted_value(p: Seq<char>)
    requires
        plain_path(p),
    ensures
        strip_quotes(seq!['"'] + p + seq!['"']) == p,
{
    let x = seq!['"'] + p + seq!['"'];
    assert(x[0] == '"' && x[1] == p[0] && x[x.len() - 1] == '"' && x[x.len() - 2] == p[p.len()
        - 1]);
    lemma_strip_is(x, CharClass::Is('"'), 1, 1);
    assert(x.subrange(1, x.len() - 1) == p);
}

/// The setting `path = "x"` after a first setting `c0`: it sets the path to
/// `x` and keeps the category.
proof fn lemma_path_setting(c0: Seq<char>, cat: SmsgCategory, p: Seq<char>)
    requires
        plain_path(p),
    ensures
        ({
            let r = " path = \""@ + p + "\""@;
            &&& forall|j: int| 0 <= j < r.len() ==> #[trigger] r[j] != ','
            &&& scan_settings(seq![c0, r], 1, cat, Seq::<char>::empty()) == Ok::<
                (SmsgCategory, Seq<char>),
                Seq<char>,
            >((cat, p))
        }),
{
    reveal_strlit(" path = \"");
    reveal_strlit("\"");
    reveal_strlit("category");
    reveal_strlit("type");
    reveal_strlit("path");
    let q = seq!['"'] + p + seq!['"'];
    let r = " path = \""@ + p + "\""@;
    assert(r == seq![' ', 'p', 'a', 't', 'h', ' ', '=', ' '] + q);
    assert forall|j: int| 0 <= j < r.len() implies #[trigger] r[j] != ',' by {
        if j >= 9 && j < r.len() - 1 {
            assert(r[j] == p[j - 9]);
        }
    }
    let parts = seq![c0, r];
    let p1 = seq!['p', 'a', 't', 'h', ' ', '=', ' '] + q;
    assert(!is_whitespace(r[1]) && !is_whitespace(r[r.len() - 1]));
    lemma_strip_is(r, CharClass::Whitespace, 1, 0);
    assert(r.subrange(1, r.len() as int) == p1);
    assert(trim(parts[1]) == p1);
    assert(p1[0] != "category"@[0]);
    assert(!starts_with(p1, "category"@));
    assert(p1[0] != "type"@[0]);
    assert(!starts_with(p1, "type"@));
    assert(p1.take(4) == "path"@);
    assert(starts_with(p1, "path"@));
    let v = seq![' '] + q;
    assert forall|j: int| 0 <= j < 5 implies #[trigger] p1[j] != '=' by {}
    lemma_split_first(p1, '=', 5);
    assert(p1.subrange(6, p1.len() as int) == v);
    assert forall|j: int| 0 <= j < v.len() implies #[trigger] v[j] != '=' by {
        if j >= 2 && j < v.len() - 1 {
            assert(v[j] == p[j - 2]);
        }
    }
    lemma_split_none(v, '=');
    assert(split(p1, '=') == seq![p1.take(5), v]);
    assert(setting_value(p1) == Some(v));
    assert(!is_whitespace(v[1]) && !is_whitespace(v[v.len() - 1]));
    lemma_strip_is(v, CharClass::Whitespace, 1, 0);
    assert(v.subrange(1, v.len() as int) == q);
    assert(trim(v) == q);
    lemma_quoted_value(p);
    assert(scan_settings(parts, 2, cat, p) == Ok::<(SmsgCategory, Seq<char>), Seq<char>>(
        (cat, p),
    ));
}

/// The settings form `c0, path = "x"`, where `c0` is a setting that selects
/// the category written `val`, names `x` with that category.
proof fn lemma_settings_form(c0: Seq<char>, f: Seq<char>, val: Seq<char>, p: Seq<char>)
    requires
        plain_path(p),
        c0.len() > 1,
        c0[0] != '"',
        !is_whitespace(c0[0]),
        !is_whitespace(c0[c0.len() - 1]),
        forall|j: int| 0 <= j < c0.len() ==> #[trigger] c0[j] != ',',
        starts_with(c0, "category"@) || starts_with(c0, "type"@),
        setting_value(c0) == Some(f),
        val == "file"@ || val == "package"@,
        trim(f) == val,
    ensures
        spec_parse_attribute(c0 + seq![','] + " path = \""@ + p + "\""@) == Ok::<
            (SmsgCategory, Seq<char>),
            Seq<char>,
        >((category_named(val), p)),
{
    reveal_strlit("file");
    reveal_strlit("package");
    let r = " path = \""@ + p + "\""@;
    lemma_path_setting(c0, category_named(val), p);
    let s2 = c0 + seq![','] + " path = \""@ + p + "\""@;
    assert(s2 == c0 + seq![','] + r);
    reveal_strlit(" path = \"");
    reveal_strlit("\"");
    assert(!is_whitespace(s2[0]) && !is_whitespace(s2[s2.len() - 1]));
    lemma_strip_is(s2, CharClass::Whitespace, 0, 0);
    assert(s2.subrange(0, s2.len() as int) == s2);
    assert(trim(s2) == s2);
    assert(s2[0] != '"');
    assert forall|j: int| 0 <= j < c0.len() implies #[trigger] s2[j] != ',' by {
        assert(s2[j] == c0[j]);
    }
    lemma_split_first(s2, ',', c0.len());
    assert(s2.take(c0.len() as int) == c0);
    assert(s2.subrange(c0.len() as int + 1, s2.len() as int) == r);
    lemma_split_none(r, ',');
    let parts = split(s2, ',');
    assert(parts == seq![c0, r]);
    lemma_strip_is(c0, CharClass::Whitespace, 0, 0);
    assert(c0.subrange(0, c0.len() as int) == c0);
    assert(trim(parts[0]) == c0);
    assert("file"@ != "package"@);
    assert(scan_settings(parts, 0, SmsgCategory::File, Seq::<char>::empty()) == scan_settings(
        parts,
        1,
        category_named(val),
        Seq::<char>::empty(),
    ));
}

/// The first setting `key = file`, with `key` of length `n`: its value is
/// ` file`, which trims to `file`.
proof fn lemma_key_file_value(c0: Seq<char>, n: nat)
    requires
        c0.len() == n + 7,
        c0.subrange(n as int, n as int + 7) == seq![' ', '=', ' ', 'f', 'i', 'l', 'e'],
        forall|j: int| 0 <= j < n ==> #[trigger] c0[j] != '=',
    ensures
        setting_value(c0) == Some(seq![' ', 'f', 'i', 'l', 'e']),
        trim(seq![' ', 'f', 'i', 'l', 'e']) == "file"@,
{
    reveal_strlit("file");
    assert(c0[n as int + 1] == '=');
    assert forall|j: int| 0 <= j < n + 1 implies #[trigger] c0[j] != '=' by {
        if j == n {
            assert(c0[j] == ' ');
        }
    }
    lemma_split_first(c0, '=', n + 1);
    let f = seq![' ', 'f', 'i', 'l', 'e'];
    assert(c0.subrange(n as int + 2, c0.len() as int) == f);
    lemma_split_none(f, '=');
    assert(split(c0, '=') == seq![c0.take(n as int + 1), f]);
    lemma_strip_is(f, CharClass::Whitespace, 1, 0);
    assert(f.subrange(1, 5) == "file"@);
}

/// The bare string form names a file: `"x"` reads as the file `x`, as do
/// `type = file, path = "x"` and `category = file, path = "x"`, for any plain
/// path `x`.
pub proof fn law_legacy_form_names_file(p: Seq<char>)
    requires
        plain_path(p),
    ensures
        spec_parse_attribute(seq!['"'] + p + seq!['"']) == Ok::<(SmsgCategory, Seq<char>), Seq<char>>((SmsgCategory::File, p)),
        spec_parse_attribute("type = file, path = \""@ + p + "\""@) == Ok::<(SmsgCategory, Seq<char>), Seq<char>>((SmsgCategory::File, p)),
        spec_parse_attribute("category = file, path = \""@ + p + "\""@) == Ok::<(SmsgCategory, Seq<char>), Seq<char>>((SmsgCategory::File, p)),
{
    // The bare string form.
    let s1 = seq!['"'] + p + seq!['"'];
    assert(!is_whitespace(s1[0]) && !is_whitespace(s1[s1.len() - 1]));
    lemma_strip_is(s1, CharClass::Whitespace, 0, 0);
    assert(s1.subrange(0, s1.len() as int) == s1);
    lemma_quoted_value(p);
    // The settings forms.
    reveal_strlit("file");
    reveal_strlit("package");
    assert("file"@.len() != "package"@.len());
    assert(category_named("file"@) == SmsgCategory::File);
    reveal_strlit("type = file, path = \"");
    reveal_strlit("category = file, path = \"");
    reveal_strlit(" path = \"");
    reveal_strlit("\"");
    reveal_strlit("category");
    reveal_strlit("type");
    let t0 = seq!['t', 'y', 'p', 'e', ' ', '=', ' ', 'f', 'i', 'l', 'e'];
    assert(t0.take(4) == "type"@);
    assert(t0.subrange(4, 11) == seq![' ', '=', ' ', 'f', 'i', 'l', 'e']);
    lemma_key_file_value(t0, 4);
    lemma_settings_form(t0, seq![' ', 'f', 'i', 'l', 'e'], "file"@, p);
    assert("type = file, path = \""@ + p + "\""@ == t0 + seq![','] + " path = \""@ + p + "\""@);
    let c0 = seq!['c', 'a', 't', 'e', 'g', 'o', 'r', 'y', ' ', '=', ' ', 'f', 'i', 'l', 'e'];
    assert(c0.take(8) == "category"@);
    assert(c0.subrange(8, 15) == seq![' ', '=', ' ', 'f', 'i', 'l', 'e']);
    lemma_key_file_value(c0, 8);
    lemma_settings_form(c0, seq![' ', 'f', 'i', 'l', 'e'], "file"@, p);
    assert("category = file, path = \""@ + p + "\""@ == c0 + seq![','] + " path = \""@ + p
        + "\""@);
}

/// The facts about a category setting `key = val` that reading it needs.
proof fn lemma_category_part(key: Seq<char>, val: Seq<char>)
    requires
        key == "category"@ || key == "type"@,
        val == "file"@ || val == "package"@,
    ensures
        ({
            let c0 = key + " = "@ + val;
            let f = seq![' '] + val;
            &&& c0.len() > 1
            &&& c0[0] != '"'
            &&& !is_whitespace(c0[0])
            &&& !is_whitespace(c0[c0.len() - 1])
            &&& forall|j: int| 0 <= j < c0.len() ==> #[trigger] c0[j] != ','
            &&& starts_with(c0, "category"@) || starts_with(c0, "type"@)
            &&& setting_value(c0) == Some(f)
            &&& trim(f) == val
            &&& trim(c0) == c0
            &&& trim(seq![' '] + c0) == c0
        }),
{
    reveal_strlit("category");
    reveal_strlit("type");
    reveal_strlit("file");
    reveal_strlit("package");
    reveal_strlit(" = ");
    let c0 = key + " = "@ + val;
    let f = seq![' '] + val;
    let n = key.len();
    assert(c0 == key + seq![' ', '=', ' '] + val);
    assert forall|j: int| 0 <= j < c0.len() implies #[trigger] c0[j] != ',' by {
        if j < n {
            assert(c0[j] == key[j]);
        } else if j >= n + 3 {
            assert(c0[j] == val[j - n - 3]);
        }
    }
    assert(c0.take(n as int) == key);
    assert(c0.take(8) == "category"@ || c0.take(4) == "type"@);
    assert forall|j: int| 0 <= j < n + 1 implies #[trigger] c0[j] != '=' by {
        if j < n {
            assert(c0[j] == key[j]);
        }
    }
    lemma_split_first(c0, '=', n + 1);
    assert(c0.subrange(n as int + 2, c0.len() as int) == f);
    assert forall|j: int| 0 <= j < f.len() implies #[trigger] f[j] != '=' by {
        if j > 0 {
            assert(f[j] == val[j - 1]);
        }
    }
    lemma_split_none(f, '=');
    assert(split(c0, '=') == seq![c0.take(n as int + 1), f]);
    assert(f[1] == val[0] && f[f.len() - 1] == val[val.len() - 1]);
    lemma_strip_is(f, CharClass::Whitespace, 1, 0);
    assert(f.subrange(1, f.len() as int) == val);
    assert(c0[0] == key[0] && c0[c0.len() - 1] == val[val.len() - 1]);
    lemma_strip_is(c0, CharClass::Whitespace, 0, 0);
    assert(c0.subrange(0, c0.len() as int) == c0);
    let g = seq![' '] + c0;
    assert(g[1] == c0[0] && g[g.len() - 1] == c0[c0.len() - 1]);
    lemma_strip_is(g, CharClass::Whitespace, 1, 0);
    assert(g.subrange(1, g.len() as int) == c0);
}

/// The facts about a first setting `path = "x"` that reading it needs.
proof fn lemma_path_first(p: Seq<char>)
    requires
        plain_path(p),
    ensures
        ({
            let pp = "path = \""@ + p + "\""@;
            &&& pp.len() > 0
            &&& !is_whitespace(pp[0])
            &&& pp[0] != '"'
            &&& forall|j: int| 0 <= j < pp.len() ==> #[trigger] pp[j] != ','
            &&& trim(pp) == pp
            &&& !starts_with(pp, "category"@)
            &&& !starts_with(pp, "type"@)
            &&& starts_with(pp, "path"@)
            &&& setting_value(pp) matches Some(v) && strip_quotes(trim(v)) == p
        }),
{
    reveal_strlit("path = \"");
    reveal_strlit("\"");
    reveal_strlit("category");
    reveal_strlit("type");
    reveal_strlit("path");
    let q = seq!['"'] + p + seq!['"'];
    let pp = "path = \""@ + p + "\""@;
    assert(pp == seq!['p', 'a', 't', 'h', ' ', '='] + seq![' '] + q);
    assert forall|j: int| 0 <= j < pp.len() implies #[trigger] pp[j] != ',' by {
        if j >= 8 && j < pp.len() - 1 {
            assert(pp[j] == p[j - 8]);
        }
    }
    assert(!is_whitespace(pp[0]) && !is_whitespace(pp[pp.len() - 1]));
    lemma_strip_is(pp, CharClass::Whitespace, 0, 0);
    assert(pp.subrange(0, pp.len() as int) == pp);
    assert(pp[0] != "category"@[0]);
    assert(pp[0] != "type"@[0]);
    assert(pp.take(4) == "path"@);
    let v = seq![' '] + q;
    assert forall|j: int| 0 <= j < 5 implies #[trigger] pp[j] != '=' by {}
    lemma_split_first(pp, '=', 5);
    assert(pp.subrange(6, pp.len() as int) == v);
    assert forall|j: int| 0 <= j < v.len() implies #[trigger] v[j] != '=' by {
        if j >= 2 && j < v.len() - 1 {
            assert(v[j] == p[j - 2]);
        }
    }
    lemma_split_none(v, '=');
    assert(split(pp, '=') == seq![pp.take(5), v]);
    assert(!is_whitespace(v[1]) && !is_whitespace(v[v.len() - 1]));
    lemma_strip_is(v, CharClass::Whitespace, 1, 0);
    assert(v.subrange(1, v.len() as int) == q);
    lemma_quoted_value(p);
}

proof fn lemma_category_then_path(key: Seq<char>, val: Seq<char>, p: Seq<char>)
    requires
        key == "category"@ || key == "type"@,
        val == "file"@ || val == "package"@,
        plain_path(p),
    ensures
        spec_parse_attribute(key + " = "@ + val + ", path = \""@ + p + "\""@) == Ok::<
            (SmsgCategory, Seq<char>),
            Seq<char>,
        >((category_named(val), p)),
{
    lemma_category_part(key, val);
    let c0 = key + " = "@ + val;
    lemma_settings_form(c0, seq![' '] + val, val, p);
    reveal_strlit(", path = \"");
    reveal_strlit(" path = \"");
    assert(", path = \""@ == seq![','] + " path = \""@);
    assert(key + " = "@ + val + ", path = \""@ + p + "\""@ == c0 + seq![','] + " path = \""@ + p
        + "\""@);
}

/// Two settings `x, y` (with `y` written after a space) split into `x` and
/// ` y`, and the whole text is already trimmed.
proof fn lemma_two_settings(x: Seq<char>, y: Seq<char>)
    requires
        x.len() > 0,
        y.len() > 0,
        !is_whitespace(x[0]),
        !is_whitespace(y[y.len() - 1]),
        forall|j: int| 0 <= j < x.len() ==> #[trigger] x[j] != ',',
        forall|j: int| 0 <= j < y.len() ==> #[trigger] y[j] != ',',
    ensures
        trim(x + seq![','] + (seq![' '] + y)) == x + seq![','] + (seq![' '] + y),
        split(x + seq![','] + (seq![' '] + y), ',') == seq![x, seq![' '] + y],
{
    let rest = seq![' '] + y;
    let s = x + seq![','] + rest;
    assert(s[0] == x[0] && s[s.len() - 1] == y[y.len() - 1]);
    lemma_strip_is(s, CharClass::Whitespace, 0, 0);
    assert(s.subrange(0, s.len() as int) == s);
    assert forall|j: int| 0 <= j < x.len() implies #[trigger] s[j] != ',' by {
        assert(s[j] == x[j]);
    }
    lemma_split_first(s, ',', x.len());
    assert(s.take(x.len() as int) == x);
    assert(s.subrange(x.len() as int + 1, s.len() as int) == rest);
    assert forall|j: int| 0 <= j < rest.len() implies #[trigger] rest[j] != ',' by {
        if j > 0 {
            assert(rest[j] == y[j - 1]);
        }
    }
    lemma_split_none(rest, ',');
}

/// Reading a path setting and then a category setting.
proof fn lemma_scan_path_then_category(
    pp: Seq<char>,
    c0: Seq<char>,
    f: Seq<char>,
    val: Seq<char>,
    p: Seq<char>,
)
    requires
        trim(pp) == pp,
        !starts_with(pp, "category"@),
        !starts_with(pp, "type"@),
        starts_with(pp, "path"@),
        setting_value(pp) matches Some(v) && strip_quotes(trim(v)) == p,
        trim(seq![' '] + c0) == c0,
        starts_with(c0, "category"@) || starts_with(c0, "type"@),
        setting_value(c0) == Some(f),
        trim(f) == val,
        val == "file"@ || val == "package"@,
    ensures
        scan_settings(seq![pp, seq![' '] + c0], 0, SmsgCategory::File, Seq::<char>::empty()) == Ok::<
            (SmsgCategory, Seq<char>),
            Seq<char>,
        >((category_named(val), p)),
{
    let parts = seq![pp, seq![' '] + c0];
    assert(parts[0] == pp);
    assert(parts[1] == seq![' '] + c0);
    assert(scan_settings(parts, 2, category_named(val), p) == Ok::<
        (SmsgCategory, Seq<char>),
        Seq<char>,
    >((category_named(val), p)));
    reveal_strlit("file");
    reveal_strlit("package");
    assert("file"@.len() != "package"@.len());
    assert(scan_settings(parts, 1, SmsgCategory::File, p) == scan_settings(
        parts,
        2,
        category_named(val),
        p,
    ));
    assert(scan_settings(parts, 0, SmsgCategory::File, Seq::<char>::empty()) == scan_settings(
        parts,
        1,
        SmsgCategory::File,
        p,
    ));
}

proof fn lemma_path_then_category(key: Seq<char>, val: Seq<char>, p: Seq<char>)
    requires
        key == "category"@ || key == "type"@,
        val == "file"@ || val == "package"@,
        plain_path(p),
    ensures
        spec_parse_attribute("path = \""@ + p + "\", "@ + key + " = "@ + val) == Ok::<
            (SmsgCategory, Seq<char>),
            Seq<char>,
        >((category_named(val), p)),
{
    let c0 = key + " = "@ + val;
    let pp = "path = \""@ + p + "\""@;
    let s = pp + seq![','] + (seq![' '] + c0);
    assert("path = \""@ + p + "\", "@ + key + " = "@ + val == s) by {
        reveal_strlit("\", ");
        reveal_strlit("\"");
        assert("\", "@ == "\""@ + seq![','] + seq![' ']);
    }
    assert(trim(s) == s && split(s, ',') == seq![pp, seq![' '] + c0] && s[0] != '"') by {
        lemma_category_part(key, val);
        lemma_path_first(p);
        lemma_two_settings(pp, c0);
        assert(s[0] == pp[0]);
    }
    assert(scan_settings(seq![pp, seq![' '] + c0], 0, SmsgCategory::File, Seq::<char>::empty())
        == Ok::<(SmsgCategory, Seq<char>), Seq<char>>((category_named(val), p))) by {
        lemma_category_part(key, val);
        lemma_path_first(p);
        lemma_scan_path_then_category(pp, c0, seq![' '] + val, val, p);
    }
}

/// A category setting sets only the category, and a path setting only the
/// path, so their order does not matter: `key = val, path = "x"` and
/// `path = "x", key = val` both give the category `val` and the path `x`,
/// for `key` either `type` or `category`, `val` either `file` or `package`,
/// and any plain path `x`.
pub proof fn law_settings_order_irrelevant(key: Seq<char>, val: Seq<char>, p: Seq<char>)
    requires
        key == "category"@ || key == "type"@,
        val == "file"@ || val == "package"@,
        plain_path(p),
    ensures
        spec_parse_attribute(key + " = "@ + val + ", path = \""@ + p + "\""@) == Ok::<
            (SmsgCategory, Seq<char>),
            Seq<char>,
        >((category_named(val), p)),
        spec_parse_attribute("path = \""@ + p + "\", "@ + key + " = "@ + val) == Ok::<
            (SmsgCategory, Seq<char>),
            Seq<char>,
        >((category_named(val), p)),
{
    lemma_category_then_path(key, val, p);
    lemma_path_then_category(key, val, p);
}

} // verus!
