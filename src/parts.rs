use vstd::prelude::*;
use crate::text::{chars_of, string_of};

verus! {

/// A URL held as its components, each already encoded; derived forms are
/// computed from the fields as they are.
#[derive(Debug, Clone)]
pub struct UrlParts {
    pub scheme: String,
    pub userinfo: String,
    pub host: String,
    pub port: Option<String>,
    pub path: String,
    pub query: Option<String>,
    pub fragment: Option<String>,
}

pub open spec fn has_colon(s: Seq<char>) -> bool {
    exists|i: int| 0 <= i < s.len() && s[i] == ':'
}

/// `prefix` followed by `s`, where `s` is present.
pub open spec fn optional_part(prefix: char, s: Option<String>) -> Seq<char> {
    match s {
        Some(x) => seq![prefix] + x@,
        None => Seq::empty(),
    }
}

impl UrlParts {
    /// The host, in brackets where it holds a `:`, then `:port` where there is a port.
    pub open spec fn netloc_spec(&self) -> Seq<char> {
        (if has_colon(self.host@) { seq!['['] + self.host@ + seq![']'] } else { self.host@ })
            + optional_part(':', self.port)
    }

    /// `userinfo@` before the netloc where there is user information.
    pub open spec fn authority_spec(&self) -> Seq<char> {
        if self.userinfo@.len() > 0 {
            self.userinfo@ + seq!['@'] + self.netloc_spec()
        } else {
            self.netloc_spec()
        }
    }

    /// `scheme://` (or `//` without a scheme), the authority, the path, then
    /// `?query` and `#fragment` where present.
    pub open spec fn render_spec(&self) -> Seq<char> {
        (if self.scheme@.len() > 0 { self.scheme@ + seq![':', '/', '/'] } else { seq!['/', '/'] })
            + self.authority_spec() + self.path@ + optional_part('?', self.query)
            + optional_part('#', self.fragment)
    }

    fn push_netloc(&self, out: &mut Vec<char>)
        ensures
            final(out)@ == old(out)@ + self.netloc_spec(),
    {
        let h = chars_of(self.host.as_str());
        let mut colon = false;
        let mut i: usize = 0;
        while i < h.len()
            invariant
                i <= h@.len(),
                h@ == self.host@,
                colon == exists|j: int| 0 <= j < i && h@[j] == ':',
            decreases h@.len() - i,
        {
            if h[i] == ':' {
                colon = true;
            }
            i += 1;
        }
        if colon {
            out.push('[');
            push_chars(out, &h);
            out.push(']');
        } else {
            push_chars(out, &h);
        }
        push_optional(out, ':', &self.port);
        assert(final(out)@ =~= old(out)@ + self.netloc_spec());
    }

    fn push_authority(&self, out: &mut Vec<char>)
        ensures
            final(out)@ == old(out)@ + self.authority_spec(),
    {
        let u = chars_of(self.userinfo.as_str());
        if u.len() > 0 {
            push_chars(out, &u);
            out.push('@');
        }
        self.push_netloc(out);
        assert(final(out)@ =~= old(out)@ + self.authority_spec());
    }

    /// The host with its port, the host bracketed where it holds a `:`.
    pub fn netloc(&self) -> (r: String)
        ensures
            r@ == self.netloc_spec(),
    {
        let mut out: Vec<char> = Vec::new();
        self.push_netloc(&mut out);
        assert(out@ =~= self.netloc_spec());
        string_of(&out)
    }

    /// The netloc with the user information in front, where there is any.
    pub fn authority(&self) -> (r: String)
        ensures
            r@ == self.authority_spec(),
    {
        let mut out: Vec<char> = Vec::new();
        self.push_authority(&mut out);
        assert(out@ =~= self.authority_spec());
        string_of(&out)
    }

    /// The whole URL as text.
    pub fn render(&self) -> (r: String)
        ensures
            r@ == self.render_spec(),
    {
        let mut out: Vec<char> = Vec::new();
        let sc = chars_of(self.scheme.as_str());
        if sc.len() > 0 {
            push_chars(&mut out, &sc);
            out.push(':');
        }
        out.push('/');
        out.push('/');
        self.push_authority(&mut out);
        let p = chars_of(self.path.as_str());
        push_chars(&mut out, &p);
        push_optional(&mut out, '?', &self.query);
        push_optional(&mut out, '#', &self.fragment);
        assert(out@ =~= self.render_spec());
        string_of(&out)
    }
}

fn push_chars(out: &mut Vec<char>, s: &Vec<char>)
    ensures
        final(out)@ == old(out)@ + s@,
{
    let mut j: usize = 0;
    while j < s.len()
        invariant
            j <= s@.len(),
            out@ == old(out)@ + s@.subrange(0, j as int),
        decreases s@.len() - j,
    {
        out.push(s[j]);
        j += 1;
        assert(out@ =~= old(out)@ + s@.subrange(0, j as int));
    }
    assert(s@.subrange(0, s@.len() as int) =~= s@);
}

fn push_optional(out: &mut Vec<char>, prefix: char, s: &Option<String>)
    ensures
        final(out)@ == old(out)@ + optional_part(prefix, *s),
{
    match s {
        Some(x) => {
            out.push(prefix);
            let cs = chars_of(x.as_str());
            push_chars(out, &cs);
            assert(final(out)@ =~= old(out)@ + optional_part(prefix, *s));
        },
        None => {
            assert(final(out)@ =~= old(out)@ + optional_part(prefix, *s));
        },
    }
}

} // verus!
