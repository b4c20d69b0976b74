//! Version bumping for releases: reading the version from a manifest, bumping
//! one of its three numbers, and rewriting the manifests' version line.

use vstd::prelude::*;
use crate::text::{chars_of, contains_text, digits, has_at, is_digit, lemma_digits_read, lemma_split_on_plain, parse_u32, parsed_u32, push_digits, push_str, split_chars, split_on, starts_with, string_from_chars, trim, trimmed};

verus! {

broadcast use vstd::string::group_string_axioms;

/// The lines of `s` as `str::lines` gives them: split at each `\n`, a `\r`
/// just before a `\n` dropped, no empty line after a final `\n`.
pub open spec fn text_lines(s: Seq<char>) -> Seq<Seq<char>>
    decreases s.len(),
{
    if s.len() == 0 {
        Seq::empty()
    } else {
        let first_break = first_newline(s, 0);
        match first_break {
            None => seq![s],
            Some(i) => {
                proof {
                    lemma_first_newline_bounds(s, 0);
                }
                let line = s.take(i);
                let line = if line.len() > 0 && line.last() == '\r' { line.drop_last() } else { line };
                seq![line] + text_lines(s.skip(i + 1))
            },
        }
    }
}

/// The position of the first `\n` in `s` at or after `i`.
pub open spec fn first_newline(s: Seq<char>, i: int) -> Option<int>
    decreases s.len() - i,
{
    if i < 0 || i >= s.len() {
        None
    } else if s[i] == '\n' {
        Some(i)
    } else {
        first_newline(s, i + 1)
    }
}

/// What `first_newline` finds is the first line break at or after `i`.
pub proof fn lemma_first_newline_bounds(s: Seq<char>, i: int)
    requires
        0 <= i,
    ensures
        first_newline(s, i) matches Some(k) ==> i <= k < s.len() && s[k] == '\n'
            && forall|j: int| i <= j < k ==> s[j] != '\n',
        first_newline(s, i) is None ==> forall|j: int| i <= j < s.len() ==> s[j] != '\n',
    decreases s.len() - i,
{
    if i < s.len() && s[i] != '\n' {
        lemma_first_newline_bounds(s, i + 1);
    }
}

/// `s` with `p` cut from its start as many times as it occurs there.
pub open spec fn strip_all_prefix(s: Seq<char>, p: Seq<char>) -> Seq<char>
    decreases s.len(),
{
    if p.len() > 0 && starts_with(s, p) { strip_all_prefix(s.skip(p.len() as int), p) } else { s }
}

/// `s` with every trailing `c` cut off.
pub open spec fn strip_all_suffix(s: Seq<char>, c: char) -> Seq<char>
    decreases s.len(),
{
    if s.len() > 0 && s.last() == c { strip_all_suffix(s.drop_last(), c) } else { s }
}

/// `version = "`: how a manifest's version line starts.
pub open spec fn version_key() -> Seq<char> {
    "version = \""@
}

/// The version a manifest states: on its first line that, trimmed, starts with
/// `version = "`, what follows that (and its repeats), without trailing quotes;
/// empty when no line does.
pub open spec fn manifest_version(lines: Seq<Seq<char>>) -> Seq<char>
    decreases lines.len(),
{
    if lines.len() == 0 {
        Seq::empty()
    } else if starts_with(trimmed(lines[0]), version_key()) {
        strip_all_suffix(strip_all_prefix(trimmed(lines[0]), version_key()), '"')
    } else {
        manifest_version(lines.skip(1))
    }
}

fn strip_prefixes(s: &Vec<char>, p: &Vec<char>) -> (r: Vec<char>)
    ensures
        r@ == strip_all_prefix(s@, p@),
{
    if p.len() == 0 {
        return s.clone();
    }
    let mut i: usize = 0;
    proof {
        assert(s@.skip(0) =~= s@);
    }
    while i <= s.len() && p.len() <= s.len() - i && starts_here(s, p, i)
        invariant
            i <= s@.len(),
            p@.len() > 0,
            strip_all_prefix(s@.skip(i as int), p@) == strip_all_prefix(s@, p@),
        decreases s@.len() - i,
    {
        proof {
            assert(s@.skip(i as int).skip(p@.len() as int) =~= s@.skip(i + p@.len()));
        }
        i += p.len();
    }
    let mut out: Vec<char> = Vec::new();
    let mut k: usize = i;
    while k < s.len()
        invariant
            i <= k <= s@.len(),
            out@ == s@.subrange(i as int, k as int),
        decreases s@.len() - k,
    {
        out.push(s[k]);
        proof {
            assert(s@.subrange(i as int, k + 1) =~= s@.subrange(i as int, k as int).push(s@[k as int]));
        }
        k += 1;
    }
    proof {
        assert(out@ =~= s@.skip(i as int));
    }
    out
}

fn starts_here(s: &Vec<char>, p: &Vec<char>, i: usize) -> (r: bool)
    requires
        i <= s@.len(),
        p@.len() <= s@.len() - i,
    ensures
        r == starts_with(s@.skip(i as int), p@),
{
    let mut k: usize = 0;
    while k < p.len()
        invariant
            i <= s.len(),
            p.len() <= s.len() - i,
            k <= p.len(),
            forall|j: int| 0 <= j < k ==> s@[i + j] == p@[j],
        decreases p@.len() - k,
    {
        if s[i + k] != p[k] {
            proof {
                assert(s@.skip(i as int).take(p@.len() as int)[k as int] == s@[i + k]);
            }
            return false;
        }
        k += 1;
    }
    proof {
        assert(s@.skip(i as int).take(p@.len() as int) =~= p@);
    }
    true
}

fn strip_quotes(s: &Vec<char>) -> (r: Vec<char>)
    ensures
        r@ == strip_all_suffix(s@, '"'),
{
    let mut n: usize = s.len();
    proof {
        assert(s@.take(n as int) =~= s@);
    }
    while n > 0 && s[n - 1] == '"'
        invariant
            n <= s@.len(),
            strip_all_suffix(s@.take(n as int), '"') == strip_all_suffix(s@, '"'),
        decreases n,
    {
        proof {
            assert(s@.take(n as int).drop_last() =~= s@.take(n - 1));
        }
        n -= 1;
    }
    let mut out: Vec<char> = Vec::new();
    let mut k: usize = 0;
    while k < n
        invariant
            n <= s@.len(),
            k <= n,
            out@ == s@.take(k as int),
        decreases n - k,
    {
        out.push(s[k]);
        proof {
            assert(s@.take(k + 1) =~= s@.take(k as int).push(s@[k as int]));
        }
        k += 1;
    }
    out
}

/// The version stated in a manifest's text (empty when it states none).
pub fn detect_version(manifest: &str) -> (r: String)
    ensures
        r@ == manifest_version(text_lines(manifest@)),
{
    let v = chars_of(manifest);
    let key = chars_of("version = \"");
    let mut start: usize = 0;
    proof {
        assert(v@.skip(0) =~= v@);
    }
    while start < v.len()
        invariant
            v@ == manifest@,
            key@ == version_key(),
            start <= v@.len(),
            manifest_version(text_lines(v@.skip(start as int))) == manifest_version(text_lines(manifest@)),
        decreases v@.len() - start,
    {
        let ghost rest = v@.skip(start as int);
        let mut end: usize = start;
        while end < v.len() && v[end] != '\n'
            invariant
                start <= end <= v@.len(),
                forall|j: int| start <= j < end ==> v@[j] != '\n',
            decreases v@.len() - end,
        {
            end += 1;
        }
        let mut line: Vec<char> = Vec::new();
        let stop: usize = if end < v.len() && end > start && v[end - 1] == '\r' { end - 1 } else { end };
        let mut k: usize = start;
        while k < stop
            invariant
                start <= k <= stop,
                stop <= v@.len(),
                line@ == v@.subrange(start as int, k as int),
            decreases stop - k,
        {
            line.push(v[k]);
            proof {
                assert(v@.subrange(start as int, k + 1) =~= v@.subrange(start as int, k as int).push(v@[k as int]));
            }
            k += 1;
        }
        let ghost expected_line = if end < v@.len() {
            let l = rest.take(end - start);
            if l.len() > 0 && l.last() == '\r' { l.drop_last() } else { l }
        } else {
            rest
        };
        proof {
            lemma_first_newline_bounds(rest, 0);
            if end < v@.len() {
                assert(rest[end - start] == '\n');
                assert forall|j: int| 0 <= j < end - start implies rest[j] != '\n' by {
                    assert(rest[j] == v@[start + j]);
                }
                lemma_first_newline_at(rest, end - start);
                assert(rest.take(end - start) =~= v@.subrange(start as int, end as int));
                if stop < end {
                    assert(v@.subrange(start as int, stop as int) =~= v@.subrange(start as int, end as int).drop_last());
                }
                assert(line@ =~= expected_line);
                assert(rest.skip(end - start + 1) =~= v@.skip(end + 1));
                assert(text_lines(rest) == seq![expected_line] + text_lines(v@.skip(end + 1)));
            } else {
                assert forall|j: int| 0 <= j < rest.len() implies rest[j] != '\n' by {
                    assert(rest[j] == v@[start + j]);
                }
                lemma_no_newline(rest, 0);
                assert(line@ =~= rest);
                assert(text_lines(rest) == seq![rest]);
            }
        }
        let t = trim(string_from_chars(line.as_slice()).as_str());
        let tc = chars_of(t.as_str());
        let found = key.len() <= tc.len() && starts_here(&tc, &key, 0);
        proof {
            assert(tc@.skip(0) =~= tc@);
            let ls = text_lines(rest);
            assert(ls[0] == expected_line);
            if end < v@.len() {
                assert(ls.skip(1) =~= text_lines(v@.skip(end + 1)));
            }
        }
        if found {
            let stripped = strip_prefixes(&tc, &key);
            let r = strip_quotes(&stripped);
            return string_from_chars(r.as_slice());
        }
        if end >= v.len() {
            proof {
                let ls = text_lines(rest);
                assert(ls.len() == 1);
                assert(ls.skip(1) =~= Seq::<Seq<char>>::empty());
                assert(!starts_with(trimmed(ls[0]), version_key()));
                assert(manifest_version(ls) == manifest_version(ls.skip(1)));
            }
            return String::new();
        }
        start = end + 1;
    }
    proof {
        assert(v@.skip(start as int) =~= Seq::<char>::empty());
    }
    String::new()
}

proof fn lemma_first_newline_at(s: Seq<char>, k: int)
    requires
        0 <= k < s.len(),
        s[k] == '\n',
        forall|j: int| 0 <= j < k ==> s[j] != '\n',
    ensures
        first_newline(s, 0) == Some(k),
{
    lemma_first_newline_from(s, 0, k);
}

proof fn lemma_first_newline_from(s: Seq<char>, i: int, k: int)
    requires
        0 <= i <= k < s.len(),
        s[k] == '\n',
        forall|j: int| i <= j < k ==> s[j] != '\n',
    ensures
        first_newline(s, i) == Some(k),
    decreases k - i,
{
    if i < k {
        lemma_first_newline_from(s, i + 1, k);
    }
}

proof fn lemma_no_newline(s: Seq<char>, i: int)
    requires
        0 <= i,
        forall|j: int| i <= j < s.len() ==> s[j] != '\n',
    ensures
        first_newline(s, i) is None,
    decreases s.len() - i,
{
    if i < s.len() {
        lemma_no_newline(s, i + 1);
    }
}


/// The numbers that the pieces read as, the others left out (what
/// `filter_map(|p| p.parse().ok())` keeps).
pub open spec fn parsed_parts(pieces: Seq<Seq<char>>) -> Seq<u32>
    decreases pieces.len(),
{
    if pieces.len() == 0 {
        Seq::empty()
    } else {
        let before = parsed_parts(pieces.drop_last());
        match parsed_u32(pieces.last()) {
            Some(n) => before.push(n),
            None => before,
        }
    }
}

/// A version's three numbers: the pieces between its dots that read as
/// numbers, when there are exactly three.
pub open spec fn semver_parts(v: Seq<char>) -> Option<(u32, u32, u32)> {
    let p = parsed_parts(split_on(v, '.'));
    if p.len() == 3 { Some((p[0], p[1], p[2])) } else { None }
}

/// Reads a version's three numbers.
pub fn parse_semver(version: &str) -> (r: Option<(u32, u32, u32)>)
    ensures
        r == semver_parts(version@),
{
    let v = chars_of(version);
    let pieces = split_chars(&v, '.');
    let ghost pm = pieces@.map_values(|p: Vec<char>| p@);
    let mut nums: Vec<u32> = Vec::new();
    let mut i: usize = 0;
    while i < pieces.len()
        invariant
            i <= pieces@.len(),
            pm == pieces@.map_values(|p: Vec<char>| p@),
            nums@ == parsed_parts(pm.take(i as int)),
        decreases pieces@.len() - i,
    {
        proof {
            assert(pm.take(i + 1).drop_last() =~= pm.take(i as int));
            assert(pm.take(i + 1).last() == pieces@[i as int]@);
        }
        match parse_u32(&pieces[i]) {
            Some(n) => nums.push(n),
            None => {},
        }
        i += 1;
    }
    proof {
        assert(pm.take(pm.len() as int) =~= pm);
    }
    if nums.len() == 3 {
        Some((nums[0], nums[1], nums[2]))
    } else {
        None
    }
}

/// Which number of a version to raise.
#[derive(PartialEq, Eq, Structural, Clone, Copy, Debug)]
pub enum BumpLevel {
    Patch,
    Minor,
    Major,
    Cancel,
}

/// The version after a bump: the chosen number goes up by one and those after
/// it go back to zero; a cancelled bump gives nothing.
pub open spec fn bumped(parts: (u32, u32, u32), level: BumpLevel) -> Option<(int, int, int)> {
    match level {
        BumpLevel::Patch => Some((parts.0 as int, parts.1 as int, parts.2 + 1)),
        BumpLevel::Minor => Some((parts.0 as int, parts.1 + 1, 0)),
        BumpLevel::Major => Some((parts.0 + 1, 0, 0)),
        BumpLevel::Cancel => None,
    }
}

/// Version `a` comes after version `b`: a larger major number, or the same
/// major number and a larger minor one, or both equal and a larger patch.
pub open spec fn later(a: (int, int, int), b: (int, int, int)) -> bool {
    a.0 > b.0 || (a.0 == b.0 && (a.1 > b.1 || (a.1 == b.1 && a.2 > b.2)))
}

/// Law: a bump gives a later version, raising the chosen number by one,
/// keeping the numbers before it and setting those after it to zero, whatever
/// they were: a patch bump keeps major and minor; a minor bump keeps the major
/// number (zero or not) and sets the patch to 0; a major bump sets minor and
/// patch to 0. Two versions that differ only in the numbers after the chosen
/// one bump to the same version; only a cancelled bump gives nothing.
pub proof fn lemma_bump_raises_one_number(parts: (u32, u32, u32), other: (u32, u32, u32), level: BumpLevel)
    ensures
        level != BumpLevel::Cancel <==> bumped(parts, level) is Some,
        bumped(parts, level) matches Some(b) ==> later(b, (parts.0 as int, parts.1 as int, parts.2 as int)),
        level == BumpLevel::Patch ==> bumped(parts, level) == Some((parts.0 as int, parts.1 as int, parts.2 + 1)),
        level == BumpLevel::Minor ==> (bumped(parts, level) matches Some(b) && b.0 == parts.0 && b.1 == parts.1 + 1 && b.2 == 0),
        level == BumpLevel::Major ==> (bumped(parts, level) matches Some(b) && b.0 == parts.0 + 1 && b.1 == 0 && b.2 == 0),
        level == BumpLevel::Minor && other.0 == parts.0 && other.1 == parts.1 ==> bumped(other, level) == bumped(parts, level),
        level == BumpLevel::Major && other.0 == parts.0 ==> bumped(other, level) == bumped(parts, level),
{
}

/// Bumps a version.
pub fn bump(parts: (u32, u32, u32), level: BumpLevel) -> (r: Option<(u32, u32, u32)>)
    requires
        level == BumpLevel::Patch ==> parts.2 < u32::MAX,
        level == BumpLevel::Minor ==> parts.1 < u32::MAX,
        level == BumpLevel::Major ==> parts.0 < u32::MAX,
    ensures
        match bumped(parts, level) {
            Some(b) => r matches Some(n) && n.0 == b.0 && n.1 == b.1 && n.2 == b.2,
            None => r is None,
        },
{
    match level {
        BumpLevel::Patch => Some((parts.0, parts.1, parts.2 + 1)),
        BumpLevel::Minor => Some((parts.0, parts.1 + 1, 0)),
        BumpLevel::Major => Some((parts.0 + 1, 0, 0)),
        BumpLevel::Cancel => None,
    }
}

/// The text of a version: its three numbers joined by dots.
pub open spec fn version_text(parts: (u32, u32, u32)) -> Seq<char> {
    digits(parts.0 as nat) + "."@ + digits(parts.1 as nat) + "."@ + digits(parts.2 as nat)
}

/// A manifest's version line for version `v`: `version = "<v>"`.
pub open spec fn version_line(v: Seq<char>) -> Seq<char> {
    version_key() + v + "\""@
}

/// The text of a version.
pub fn format_version(parts: (u32, u32, u32)) -> (r: String)
    ensures
        r@ == version_text(parts),
{
    let mut v: Vec<char> = Vec::new();
    push_digits(&mut v, parts.0 as u64);
    push_str(&mut v, ".");
    push_digits(&mut v, parts.1 as u64);
    push_str(&mut v, ".");
    push_digits(&mut v, parts.2 as u64);
    string_from_chars(v.as_slice())
}

proof fn lemma_number_reads_back(n: u32)
    ensures
        parsed_u32(digits(n as nat)) == Some(n),
        forall|i: int| 0 <= i < digits(n as nat).len() ==> #[trigger] digits(n as nat)[i] != '.',
{
    lemma_digits_read(n as nat);
    let d = digits(n as nat);
    assert(is_digit(d[0]));
    assert forall|i: int| 0 <= i < d.len() implies #[trigger] d[i] != '.' by {
        assert(is_digit(d[i]));
    }
}

/// Law: a version written out reads back as the same three numbers.
pub proof fn lemma_version_reads_back(parts: (u32, u32, u32))
    ensures
        semver_parts(version_text(parts)) == Some(parts),
{
    reveal_strlit(".");
    let a = digits(parts.0 as nat);
    let b = digits(parts.1 as nat);
    let c = digits(parts.2 as nat);
    lemma_number_reads_back(parts.0);
    lemma_number_reads_back(parts.1);
    lemma_number_reads_back(parts.2);
    let e = Seq::<char>::empty();
    let s1 = a.push('.');
    let s2 = s1 + b;
    let s3 = s2.push('.');
    let s4 = s3 + c;
    assert(version_text(parts) =~= s4);
    lemma_split_on_plain(e, a, '.');
    assert(e + a =~= a);
    assert(split_on(e, '.') =~= seq![e]);
    assert(split_on(a, '.') =~= seq![a]);
    assert(s1.drop_last() =~= a);
    assert(split_on(s1, '.') =~= seq![a, e]);
    lemma_split_on_plain(s1, b, '.');
    assert(split_on(s2, '.') =~= seq![a, b]);
    assert(s3.drop_last() =~= s2);
    assert(split_on(s3, '.') =~= seq![a, b, e]);
    lemma_split_on_plain(s3, c, '.');
    let pieces = seq![a, b, c];
    assert(split_on(s4, '.') =~= pieces);
    assert(pieces.drop_last() =~= seq![a, b]);
    assert(seq![a, b].drop_last() =~= seq![a]);
    assert(seq![a].drop_last() =~= Seq::<Seq<char>>::empty());
    assert(parsed_parts(Seq::<Seq<char>>::empty()) =~= Seq::<u32>::empty());
    assert(seq![a].last() == a);
    assert(parsed_parts(seq![a]) =~= seq![parts.0]);
    assert(seq![a, b].last() == b);
    assert(parsed_parts(seq![a, b]) =~= seq![parts.0, parts.1]);
    assert(pieces.last() == c);
    assert(parsed_parts(pieces) =~= seq![parts.0, parts.1, parts.2]);
}

/// The version line of a manifest for version `v`.
pub fn manifest_line(v: &str) -> (r: String)
    ensures
        r@ == version_line(v@),
{
    let mut out: Vec<char> = Vec::new();
    push_str(&mut out, "version = \"");
    push_str(&mut out, v);
    push_str(&mut out, "\"");
    string_from_chars(out.as_slice())
}

/// The first position at or after `i` where `p` occurs in `s`.
pub open spec fn first_occurrence_from(s: Seq<char>, p: Seq<char>, i: int) -> Option<int>
    decreases s.len() + 1 - i,
{
    if i < 0 || i > s.len() {
        None
    } else if has_at(s, p, i) {
        Some(i)
    } else {
        first_occurrence_from(s, p, i + 1)
    }
}

/// `s` with its first occurrence of `p` replaced by `r` (what `replacen(p, r, 1)` does).
pub open spec fn replace_first(s: Seq<char>, p: Seq<char>, r: Seq<char>) -> Seq<char> {
    match first_occurrence_from(s, p, 0) {
        Some(i) => s.take(i) + r + s.skip(i + p.len()),
        None => s,
    }
}

/// Rewrites the first occurrence of `old_line` in a manifest to `new_line`;
/// `None` when the manifest does not contain it (and is left alone).
pub fn rewrite_version(content: &str, old_line: &str, new_line: &str) -> (r: Option<String>)
    ensures
        match r {
            Some(t) => contains_text(content@, old_line@) && t@ == replace_first(content@, old_line@, new_line@),
            None => !contains_text(content@, old_line@),
        },
{
    let s = chars_of(content);
    let p = chars_of(old_line);
    let mut i: usize = 0;
    while i <= s.len()
        invariant
            s@ == content@,
            p@ == old_line@,
            i <= s@.len() + 1,
            first_occurrence_from(s@, p@, 0) == first_occurrence_from(s@, p@, i as int),
            forall|k: int| 0 <= k < i ==> !has_at(s@, p@, k),
        decreases s@.len() + 1 - i,
    {
        let here = p.len() <= s.len() - i && starts_here(&s, &p, i);
        proof {
            if p@.len() <= s@.len() - i {
                assert(s@.skip(i as int).take(p@.len() as int) =~= s@.subrange(i as int, i + p@.len()));
            }
        }
        if here {
            let mut out: Vec<char> = Vec::new();
            let mut k: usize = 0;
            while k < i
                invariant
                    k <= i,
                    i <= s@.len(),
                    out@ == s@.take(k as int),
                decreases i - k,
            {
                out.push(s[k]);
                proof {
                    assert(s@.take(k + 1) =~= s@.take(k as int).push(s@[k as int]));
                }
                k += 1;
            }
            push_str(&mut out, new_line);
            let mut j: usize = i + p.len();
            let ghost mid = out@;
            while j < s.len()
                invariant
                    i + p@.len() <= j <= s@.len(),
                    out@ == mid + s@.subrange(i + p@.len(), j as int),
                decreases s@.len() - j,
            {
                out.push(s[j]);
                proof {
                    assert(s@.subrange(i + p@.len(), j + 1) =~= s@.subrange(i + p@.len(), j as int).push(s@[j as int]));
                }
                j += 1;
            }
            proof {
                assert(has_at(s@, p@, i as int));
                assert(s@.subrange(i + p@.len(), s@.len() as int) =~= s@.skip(i + p@.len()));
            }
            return Some(string_from_chars(out.as_slice()));
        }
        if i == s.len() {
            proof {
                assert forall|k: int| !has_at(s@, p@, k) by {
                    if 0 <= k <= i {
                    }
                }
            }
            return None;
        }
        i += 1;
    }
    None
}

} // verus!
