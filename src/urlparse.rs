use vstd::prelude::*;
use crate::err::InvalidUrl;
use vstd::string::StringSliceAdditionalSpecFns;
use crate::text::{chars_of, string_of};

verus! {

/// Why `validate_path` rejects a path, if it does.
pub open spec fn path_error(path: Seq<char>, has_scheme: bool, has_authority: bool) -> Option<Seq<char>> {
    if has_authority && path.len() > 0 && path[0] != '/' {
        Some("For absolute URLs, path must be empty or begin with '/'"@)
    } else if !has_scheme && !has_authority && path.len() >= 2 && path[0] == '/' && path[1] == '/' {
        Some("Relative URLs cannot have a path starting with '//'"@)
    } else if !has_scheme && !has_authority && path.len() >= 1 && path[0] == ':' {
        Some("Relative URLs cannot have a path starting with ':'"@)
    } else {
        None
    }
}

/// Checks how a path fits with the presence of a scheme and an authority.
pub fn validate_path(path: &str, has_scheme: bool, has_authority: bool) -> (r: Result<(), InvalidUrl>)
    ensures
        r is Ok <==> path_error(path@, has_scheme, has_authority) is None,
        r is Err ==> path_error(path@, has_scheme, has_authority) == Some(r->Err_0.message@),
        has_authority && path@.len() > 0 && path@[0] != '/' ==> r is Err,
{
    let p = chars_of(path);
    if has_authority && p.len() > 0 && p[0] != '/' {
        return Err(InvalidUrl::new("For absolute URLs, path must be empty or begin with '/'"));
    }
    if !has_scheme && !has_authority {
        if p.len() >= 2 && p[0] == '/' && p[1] == '/' {
            return Err(InvalidUrl::new("Relative URLs cannot have a path starting with '//'"));
        }
        if p.len() >= 1 && p[0] == ':' {
            return Err(InvalidUrl::new("Relative URLs cannot have a path starting with ':'"));
        }
    }
    Ok(())
}

/// ASCII letters, digits and `-._~`: never percent-encoded.
pub open spec fn is_unreserved(b: u8) -> bool {
    (0x41 <= b && b <= 0x5a) || (0x61 <= b && b <= 0x7a) || (0x30 <= b && b <= 0x39)
        || b == 0x2d || b == 0x2e || b == 0x5f || b == 0x7e
}

pub open spec fn is_hex_byte(b: u8) -> bool {
    (0x30 <= b && b <= 0x39) || (0x41 <= b && b <= 0x46) || (0x61 <= b && b <= 0x66)
}

/// The uppercase hexadecimal digit for `n < 16`.
pub open spec fn hex_char(n: u8) -> char {
    if n < 10 {
        (0x30 + n) as u8 as char
    } else {
        (0x41 + n - 10) as u8 as char
    }
}

/// One byte as it appears in percent-encoded output.
pub open spec fn encode_byte(b: u8, safe: Seq<u8>) -> Seq<char> {
    if is_unreserved(b) || safe.contains(b) {
        seq![b as char]
    } else {
        seq!['%', hex_char(b / 16), hex_char(b % 16)]
    }
}

/// Every byte of `s` encoded on its own.
pub open spec fn encode_bytes(s: Seq<u8>, safe: Seq<u8>) -> Seq<char>
    decreases s.len(),
{
    if s.len() == 0 {
        Seq::empty()
    } else {
        encode_bytes(s.drop_last(), safe) + encode_byte(s.last(), safe)
    }
}

/// `s` starts with `%` and two hexadecimal digits.
pub open spec fn starts_with_triplet(s: Seq<u8>) -> bool {
    s.len() >= 3 && s[0] == 0x25 && is_hex_byte(s[1]) && is_hex_byte(s[2])
}

/// Percent-encoding that copies existing `%XX` triplets through unchanged.
pub open spec fn quote_bytes(s: Seq<u8>, safe: Seq<u8>) -> Seq<char>
    decreases s.len(),
{
    if s.len() == 0 {
        Seq::empty()
    } else if starts_with_triplet(s) {
        seq![s[0] as char, s[1] as char, s[2] as char] + quote_bytes(s.subrange(3, s.len() as int), safe)
    } else {
        encode_byte(s[0], safe) + quote_bytes(s.subrange(1, s.len() as int), safe)
    }
}

pub(crate) fn hex_digit(n: u8) -> (c: char)
    requires
        n < 16,
    ensures
        c == hex_char(n),
{
    if n < 10 {
        (0x30 + n) as char
    } else {
        (0x41 + n - 10) as char
    }
}

fn byte_in(b: u8, set: &[u8]) -> (r: bool)
    ensures
        r == set@.contains(b),
{
    let mut i: usize = 0;
    while i < set.len()
        invariant
            i <= set@.len(),
            forall|j: int| 0 <= j < i ==> set@[j] != b,
        decreases set@.len() - i,
    {
        if set[i] == b {
            return true;
        }
        i += 1;
    }
    false
}

fn push_encoded_byte(out: &mut Vec<char>, b: u8, safe: &[u8])
    ensures
        final(out)@ == old(out)@ + encode_byte(b, safe@),
{
    let unreserved = (0x41 <= b && b <= 0x5a) || (0x61 <= b && b <= 0x7a) || (0x30 <= b && b <= 0x39)
        || b == 0x2d || b == 0x2e || b == 0x5f || b == 0x7e;
    if unreserved || byte_in(b, safe) {
        out.push(b as char);
    } else {
        out.push('%');
        out.push(hex_digit(b / 16));
        out.push(hex_digit(b % 16));
    }
    assert(final(out)@ =~= old(out)@ + encode_byte(b, safe@));
}

/// Percent-encodes every byte of `string` that is neither unreserved nor in `safe`.
pub fn percent_encoded(string: &str, safe: &str) -> (r: String)
    ensures
        r@ == encode_bytes(string.spec_bytes(), safe.spec_bytes()),
{
    let s = string.as_bytes();
    let sf = safe.as_bytes();
    let mut out: Vec<char> = Vec::new();
    let mut i: usize = 0;
    while i < s.len()
        invariant
            i <= s@.len(),
            out@ == encode_bytes(s@.subrange(0, i as int), sf@),
        decreases s@.len() - i,
    {
        assert(s@.subrange(0, i + 1).drop_last() =~= s@.subrange(0, i as int));
        push_encoded_byte(&mut out, s[i], sf);
        i += 1;
    }
    assert(s@.subrange(0, s@.len() as int) =~= s@);
    string_of(&out)
}

/// Percent-encodes `string` as `percent_encoded` does, but copies every
/// `%` followed by two hexadecimal digits through verbatim.
pub fn quote(string: &str, safe: &str) -> (r: String)
    ensures
        r@ == quote_bytes(string.spec_bytes(), safe.spec_bytes()),
{
    let s = string.as_bytes();
    let sf = safe.as_bytes();
    let n = s.len();
    let mut out: Vec<char> = Vec::new();
    let mut i: usize = 0;
    assert(s@.subrange(0, n as int) =~= s@);
    assert(out@ + quote_bytes(s@, sf@) =~= quote_bytes(s@, sf@));
    while i < n
        invariant
            i <= n,
            n == s@.len(),
            quote_bytes(s@, sf@) == out@ + quote_bytes(s@.subrange(i as int, n as int), sf@),
        decreases n - i,
    {
        let ghost rest = s@.subrange(i as int, n as int);
        let b0 = s[i];
        if b0 == 0x25 && n - i >= 3 && is_hex(s[i + 1]) && is_hex(s[i + 2]) {
            assert(rest.subrange(3, rest.len() as int) =~= s@.subrange(i + 3, n as int));
            out.push(b0 as char);
            out.push(s[i + 1] as char);
            out.push(s[i + 2] as char);
            i += 3;
        } else {
            assert(rest.subrange(1, rest.len() as int) =~= s@.subrange(i + 1, n as int));
            push_encoded_byte(&mut out, b0, sf);
            i += 1;
        }
        assert(quote_bytes(s@, sf@) =~= out@ + quote_bytes(s@.subrange(i as int, n as int), sf@));
    }
    assert(quote_bytes(s@.subrange(n as int, n as int), sf@) =~= Seq::empty());
    string_of(&out)
}

fn is_hex(b: u8) -> (r: bool)
    ensures
        r == is_hex_byte(b),
{
    (0x30 <= b && b <= 0x39) || (0x41 <= b && b <= 0x46) || (0x61 <= b && b <= 0x66)
}

/// An ASCII character that is neither graphic nor the space.
pub open spec fn is_non_printable_ascii(c: char) -> bool {
    (c as u32) < 0x80 && !(0x21 <= (c as u32) && (c as u32) <= 0x7e) && c != ' '
}

/// The position, in characters, of the first non-printable ASCII character.
pub fn find_ascii_non_printable(s: &str) -> (r: Option<usize>)
    ensures
        r is None <==> forall|i: int| 0 <= i < s@.len() ==> !is_non_printable_ascii(#[trigger] s@[i]),
        r is Some ==> r->Some_0 < s@.len() && is_non_printable_ascii(s@[r->Some_0 as int])
            && forall|i: int| 0 <= i < r->Some_0 ==> !is_non_printable_ascii(#[trigger] s@[i]),
{
    let cs = chars_of(s);
    let mut i: usize = 0;
    while i < cs.len()
        invariant
            i <= cs@.len(),
            cs@ == s@,
            forall|j: int| 0 <= j < i ==> !is_non_printable_ascii(#[trigger] s@[j]),
        decreases cs@.len() - i,
    {
        let c = cs[i];
        let u = c as u32;
        if u < 0x80 && !(0x21 <= u && u <= 0x7e) && c != ' ' {
            return Some(i);
        }
        i += 1;
    }
    None
}

/// The character views of a vector of segments.
pub open spec fn seg_views(v: Seq<Vec<char>>) -> Seq<Seq<char>> {
    v.map_values(|x: Vec<char>| x@)
}

pub open spec fn no_slash(s: Seq<char>) -> bool {
    forall|i: int| 0 <= i < s.len() ==> s[i] != '/'
}

pub open spec fn has_dot(s: Seq<char>) -> bool {
    exists|i: int| 0 <= i < s.len() && s[i] == '.'
}

/// `s` split at every `sep`; there is always at least one piece.
pub open spec fn split_on(s: Seq<char>, sep: char) -> Seq<Seq<char>>
    decreases s.len(),
{
    if s.len() == 0 {
        seq![Seq::empty()]
    } else {
        let prev = split_on(s.drop_last(), sep);
        if s.last() == sep {
            prev.push(Seq::empty())
        } else {
            prev.update(prev.len() - 1, prev.last().push(s.last()))
        }
    }
}

/// The segments joined with `/` between them.
pub open spec fn join_slash(segs: Seq<Seq<char>>) -> Seq<char>
    decreases segs.len(),
{
    if segs.len() == 0 {
        Seq::empty()
    } else if segs.len() == 1 {
        segs[0]
    } else {
        join_slash(segs.drop_last()) + seq!['/'] + segs.last()
    }
}

pub open spec fn is_dot_segment(seg: Seq<char>) -> bool {
    seg == seq!['.'] || seg == seq!['.', '.']
}

/// One segment taken into the retained list: `.` is dropped, `..` removes the
/// last retained segment unless only the root placeholder (or nothing) is left.
pub open spec fn resolve_step(acc: Seq<Seq<char>>, seg: Seq<char>) -> Seq<Seq<char>> {
    if seg == seq!['.'] {
        acc
    } else if seg == seq!['.', '.'] {
        if acc.len() == 0 || acc == seq![Seq::<char>::empty()] {
            acc
        } else {
            acc.drop_last()
        }
    } else {
        acc.push(seg)
    }
}

pub open spec fn resolve(segs: Seq<Seq<char>>) -> Seq<Seq<char>>
    decreases segs.len(),
{
    if segs.len() == 0 {
        Seq::empty()
    } else {
        resolve_step(resolve(segs.drop_last()), segs.last())
    }
}

/// The path with its dot-segments removed.
pub open spec fn normalize_spec(p: Seq<char>) -> Seq<char> {
    if !has_dot(p) {
        p
    } else {
        join_slash(resolve(split_on(p, '/')))
    }
}

pub(crate) proof fn lemma_split_no_sep(s: Seq<char>, sep: char)
    requires
        forall|i: int| 0 <= i < s.len() ==> s[i] != sep,
    ensures
        split_on(s, sep) == seq![s],
    decreases s.len(),
{
    if s.len() > 0 {
        lemma_split_no_sep(s.drop_last(), sep);
        assert(s.drop_last().push(s.last()) =~= s);
        assert(split_on(s, sep) =~= seq![s]);
    } else {
        assert(s =~= Seq::<char>::empty());
    }
}

pub(crate) proof fn lemma_split_append(a: Seq<char>, b: Seq<char>, sep: char)
    requires
        forall|i: int| 0 <= i < b.len() ==> b[i] != sep,
    ensures
        split_on(a + seq![sep] + b, sep) == split_on(a, sep).push(b),
    decreases b.len(),
{
    let s = a + seq![sep] + b;
    if b.len() == 0 {
        assert(s.drop_last() =~= a);
        assert(b =~= Seq::<char>::empty());
    } else {
        lemma_split_append(a, b.drop_last(), sep);
        assert(s.drop_last() =~= a + seq![sep] + b.drop_last());
        assert(s.last() == b.last());
        assert(b.drop_last().push(b.last()) =~= b);
        assert(split_on(s, sep) =~= split_on(a, sep).push(b));
    }
}

proof fn lemma_split_join(segs: Seq<Seq<char>>)
    requires
        segs.len() >= 1,
        forall|i: int| 0 <= i < segs.len() ==> no_slash(#[trigger] segs[i]),
    ensures
        split_on(join_slash(segs), '/') == segs,
    decreases segs.len(),
{
    if segs.len() == 1 {
        lemma_split_no_sep(segs[0], '/');
        assert(segs =~= seq![segs[0]]);
    } else {
        let init = segs.drop_last();
        assert forall|i: int| 0 <= i < init.len() implies no_slash(#[trigger] init[i]) by {
            assert(init[i] == segs[i]);
        }
        lemma_split_join(init);
        assert(no_slash(segs[segs.len() - 1]));
        lemma_split_append(join_slash(init), segs.last(), '/');
        assert(init.push(segs.last()) =~= segs);
    }
}

proof fn lemma_split_parts(s: Seq<char>)
    ensures
        split_on(s, '/').len() >= 1,
        forall|i: int| 0 <= i < split_on(s, '/').len() ==> no_slash(#[trigger] split_on(s, '/')[i]),
    decreases s.len(),
{
    if s.len() > 0 {
        lemma_split_parts(s.drop_last());
        let prev = split_on(s.drop_last(), '/');
        let cur = split_on(s, '/');
        assert forall|i: int| 0 <= i < cur.len() implies no_slash(#[trigger] cur[i]) by {
            if i < prev.len() && !(s.last() != '/' && i == prev.len() - 1) {
                assert(cur[i] == prev[i]);
            } else if s.last() != '/' {
                assert(cur[i] == prev.last().push(s.last()));
                assert(no_slash(prev[prev.len() - 1]));
            } else {
                assert(cur[i] == Seq::<char>::empty());
            }
        }
    }
}

proof fn lemma_resolve_parts(segs: Seq<Seq<char>>)
    requires
        forall|i: int| 0 <= i < segs.len() ==> no_slash(#[trigger] segs[i]),
    ensures
        forall|i: int| 0 <= i < resolve(segs).len() ==> no_slash(#[trigger] resolve(segs)[i])
            && !is_dot_segment(resolve(segs)[i]),
    decreases segs.len(),
{
    if segs.len() > 0 {
        let init = segs.drop_last();
        assert forall|i: int| 0 <= i < init.len() implies no_slash(#[trigger] init[i]) by {
            assert(init[i] == segs[i]);
        }
        lemma_resolve_parts(init);
        let prev = resolve(init);
        let cur = resolve(segs);
        assert(no_slash(segs[segs.len() - 1]));
        assert forall|i: int| 0 <= i < cur.len() implies no_slash(#[trigger] cur[i]) && !is_dot_segment(cur[i]) by {
            if i < prev.len() {
                assert(cur[i] == prev[i]);
            } else {
                assert(cur[i] == segs.last());
            }
        }
    }
}

proof fn lemma_resolve_clean(segs: Seq<Seq<char>>)
    requires
        forall|i: int| 0 <= i < segs.len() ==> !is_dot_segment(#[trigger] segs[i]),
    ensures
        resolve(segs) == segs,
    decreases segs.len(),
{
    if segs.len() > 0 {
        let init = segs.drop_last();
        assert forall|i: int| 0 <= i < init.len() implies !is_dot_segment(#[trigger] init[i]) by {
            assert(init[i] == segs[i]);
        }
        lemma_resolve_clean(init);
        assert(!is_dot_segment(segs[segs.len() - 1]));
        assert(init.push(segs.last()) =~= segs);
    }
}

/// Normalizing a path a second time changes nothing.
pub proof fn lemma_normalize_idempotent(p: Seq<char>)
    ensures
        normalize_spec(normalize_spec(p)) == normalize_spec(p),
{
    let q = normalize_spec(p);
    if has_dot(p) && has_dot(q) {
        let r = resolve(split_on(p, '/'));
        if r.len() == 0 {
            assert(q =~= Seq::<char>::empty());
        }
        lemma_split_parts(p);
        lemma_resolve_parts(split_on(p, '/'));
        lemma_split_join(r);
        lemma_resolve_clean(r);
    }
}

fn resolve_into(kept: &mut Vec<Vec<char>>, seg: Vec<char>)
    ensures
        seg_views(final(kept)@) == resolve_step(seg_views(old(kept)@), seg@),
{
    let ghost acc = seg_views(old(kept)@);
    if seg.len() == 1 && seg[0] == '.' {
        assert(seg@ =~= seq!['.']);
    } else if seg.len() == 2 && seg[0] == '.' && seg[1] == '.' {
        assert(seg@ =~= seq!['.', '.']);
        if kept.len() == 0 {
        } else if kept.len() == 1 && kept[0].len() == 0 {
            assert(acc[0] == kept@[0]@);
            assert(acc[0] =~= Seq::<char>::empty());
            assert(acc =~= seq![Seq::<char>::empty()]);
        } else {
            assert(acc != seq![Seq::<char>::empty()]) by {
                if acc == seq![Seq::<char>::empty()] {
                    assert(acc.len() == kept@.len());
                    assert(acc[0] == kept@[0]@);
                    assert(kept@[0]@.len() == 0);
                }
            }
            kept.pop();
            assert(seg_views(final(kept)@) =~= acc.drop_last());
        }
    } else {
        kept.push(seg);
        assert(seg_views(final(kept)@) =~= acc.push(seg@));
    }
}

fn push_all(out: &mut Vec<char>, seg: &Vec<char>)
    ensures
        final(out)@ == old(out)@ + seg@,
{
    let mut j: usize = 0;
    while j < seg.len()
        invariant
            j <= seg@.len(),
            out@ == old(out)@ + seg@.subrange(0, j as int),
        decreases seg@.len() - j,
    {
        out.push(seg[j]);
        j += 1;
        assert(out@ =~= old(out)@ + seg@.subrange(0, j as int));
    }
    assert(seg@.subrange(0, seg@.len() as int) =~= seg@);
}

fn join_segments(kept: &Vec<Vec<char>>) -> (r: Vec<char>)
    ensures
        r@ == join_slash(seg_views(kept@)),
{
    let mut out: Vec<char> = Vec::new();
    let mut i: usize = 0;
    while i < kept.len()
        invariant
            i <= kept@.len(),
            out@ == join_slash(seg_views(kept@).subrange(0, i as int)),
        decreases kept@.len() - i,
    {
        let ghost prefix = seg_views(kept@).subrange(0, i + 1);
        assert(prefix.drop_last() =~= seg_views(kept@).subrange(0, i as int));
        if i > 0 {
            out.push('/');
        }
        push_all(&mut out, &kept[i]);
        i += 1;
    }
    assert(seg_views(kept@).subrange(0, kept@.len() as int) =~= seg_views(kept@));
    out
}

/// Removes `.` and `..` segments; a path without any `.` is returned as it is.
pub fn normalize_path(path: &str) -> (r: String)
    ensures
        r@ == normalize_spec(path@),
{
    let p = chars_of(path);
    let n = p.len();
    let mut found = false;
    let mut k: usize = 0;
    while k < n
        invariant
            k <= n,
            n == p@.len(),
            p@ == path@,
            found == exists|j: int| 0 <= j < k && p@[j] == '.',
        decreases n - k,
    {
        if p[k] == '.' {
            found = true;
        }
        k += 1;
    }
    if !found {
        return string_of(&p);
    }
    let mut kept: Vec<Vec<char>> = Vec::new();
    let mut cur: Vec<char> = Vec::new();
    let mut i: usize = 0;
    assert(p@.subrange(0, 0) =~= Seq::<char>::empty());
    assert(seg_views(kept@) =~= Seq::<Seq<char>>::empty());
    while i < n
        invariant
            i <= n,
            n == p@.len(),
            p@ == path@,
            split_on(p@.subrange(0, i as int), '/').len() >= 1,
            resolve(split_on(p@.subrange(0, i as int), '/').drop_last()) == seg_views(kept@),
            split_on(p@.subrange(0, i as int), '/').last() == cur@,
        decreases n - i,
    {
        let ghost pre = split_on(p@.subrange(0, i as int), '/');
        assert(p@.subrange(0, i + 1).drop_last() =~= p@.subrange(0, i as int));
        let c = p[i];
        if c == '/' {
            let seg = cur;
            cur = Vec::new();
            assert(pre =~= pre.drop_last().push(pre.last()));
            resolve_into(&mut kept, seg);
            assert(split_on(p@.subrange(0, i + 1), '/').drop_last() =~= pre);
        } else {
            cur.push(c);
            assert(split_on(p@.subrange(0, i + 1), '/').drop_last() =~= pre.drop_last());
        }
        i += 1;
    }
    assert(p@.subrange(0, n as int) =~= p@);
    let ghost all = split_on(p@, '/');
    assert(all =~= all.drop_last().push(all.last()));
    resolve_into(&mut kept, cur);
    let out = join_segments(&kept);
    string_of(&out)
}

} // verus!
