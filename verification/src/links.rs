//! Resolution data for internal double-bracket links.
//!
//! Resolving a link name against the document store is a filesystem concern
//! and stays outside the lexer; the lexer instead consults a `LinkTable`, a
//! snapshot that maps each document name to the URL its first line declares.
//! This module also holds the parser for that declared-URL comment line.

use vstd::prelude::*;
use crate::text::{trimmed, slice_range, trim_chars};

verus! {

/// One known document: its name and the URL value its first line declares.
pub struct LinkEntry {
    pub name: Vec<char>,
    pub url: Vec<char>,
}

/// A snapshot of the document store's declared URLs, in store order.
pub struct LinkTable {
    pub entries: Vec<LinkEntry>,
}

impl View for LinkEntry {
    type V = (Seq<char>, Seq<char>);

    open spec fn view(&self) -> (Seq<char>, Seq<char>) {
        (self.name@, self.url@)
    }
}

impl View for LinkTable {
    type V = Seq<(Seq<char>, Seq<char>)>;

    open spec fn view(&self) -> Seq<(Seq<char>, Seq<char>)> {
        Seq::new(self.entries@.len(), |k: int| self.entries@[k]@)
    }
}

/// The URL of the first entry whose name is `name`, if any.
pub open spec fn lookup_link(links: Seq<(Seq<char>, Seq<char>)>, name: Seq<char>) -> Option<
    Seq<char>,
>
    decreases links.len(),
{
    if links.len() == 0 {
        None
    } else if links[0].0 == name {
        Some(links[0].1)
    } else {
        lookup_link(links.skip(1), name)
    }
}

impl LinkTable {
    /// An empty table: no link name resolves.
    pub fn new() -> (r: Self)
        ensures
            r@ == Seq::<(Seq<char>, Seq<char>)>::empty(),
    {
        let r = LinkTable { entries: Vec::new() };
        proof {
            assert(r@ =~= Seq::<(Seq<char>, Seq<char>)>::empty());
        }
        r
    }

    /// Records one document name with its declared URL, after all earlier
    /// entries.
    pub fn add(&mut self, name: Vec<char>, url: Vec<char>)
        ensures
            final(self)@ == old(self)@.push((name@, url@)),
    {
        let ghost before = self@;
        self.entries.push(LinkEntry { name, url });
        proof {
            assert(self@ =~= before.push((name@, url@)));
        }
    }

    /// Finds the first entry named `name` and hands back a copy of its URL.
    pub fn lookup(&self, name: &Vec<char>) -> (r: Option<Vec<char>>)
        ensures
            match r {
                Some(url) => lookup_link(self@, name@) == Some(url@),
                None => lookup_link(self@, name@) is None,
            },
    {
        proof {
            assert(self@.skip(0) =~= self@);
        }
        let mut k: usize = 0;
        while k < self.entries.len()
            invariant
                k <= self.entries@.len(),
                lookup_link(self@, name@) == lookup_link(self@.skip(k as int), name@),
            decreases self.entries@.len() - k,
        {
            proof {
                assert(self@.skip(k as int)[0] == self.entries@[k as int]@);
                assert(self@.skip(k as int).skip(1) =~= self@.skip(k + 1));
            }
            if chars_eq(&self.entries[k].name, name) {
                let url = slice_range(&self.entries[k].url, 0, self.entries[k].url.len());
                proof {
                    assert(url@ =~= self.entries@[k as int].url@);
                }
                return Some(url);
            }
            k = k + 1;
        }
        None
    }
}

/// Whether two character vectors hold the same characters.
pub fn chars_eq(a: &Vec<char>, b: &Vec<char>) -> (r: bool)
    ensures
        r == (a@ == b@),
{
    if a.len() != b.len() {
        return false;
    }
    let mut k: usize = 0;
    while k < a.len()
        invariant
            a@.len() == b@.len(),
            k <= a@.len(),
            forall|q: int| 0 <= q < k ==> a@[q] == b@[q],
        decreases a@.len() - k,
    {
        if a[k] != b[k] {
            return false;
        }
        k = k + 1;
    }
    proof {
        assert(a@ =~= b@);
    }
    true
}

/// The declared-URL pattern: a first line of the shape `<!-- url: <value> -->`
/// with a non-empty value names `value` (trimmed) as the document's URL.
pub open spec fn declared_url(line: Seq<char>) -> Option<Seq<char>> {
    let t = trimmed(line);
    if t.len() >= 13 && t[0] == '<' && t[1] == '!' && t[2] == '-' && t[3] == '-' && t[4] == ' '
        && t[5] == 'u' && t[6] == 'r' && t[7] == 'l' && t[8] == ':' && t[9] == ' ' && t[t.len()
        - 3] == '-' && t[t.len() - 2] == '-' && t[t.len() - 1] == '>' {
        let v = trimmed(t.subrange(9, t.len() - 3));
        if v.len() > 0 {
            Some(v)
        } else {
            None
        }
    } else {
        None
    }
}

/// Parses a document's first line for the declared-URL comment.
pub fn parse_declared_url(line: &Vec<char>) -> (r: Option<Vec<char>>)
    ensures
        match r {
            Some(v) => declared_url(line@) == Some(v@),
            None => declared_url(line@) is None,
        },
{
    let t = trim_chars(line);
    if t.len() >= 13 && t[0] == '<' && t[1] == '!' && t[2] == '-' && t[3] == '-' && t[4] == ' '
        && t[5] == 'u' && t[6] == 'r' && t[7] == 'l' && t[8] == ':' && t[9] == ' '
        && t[t.len() - 3] == '-' && t[t.len() - 2] == '-' && t[t.len() - 1] == '>' {
        let inner = slice_range(&t, 9, t.len() - 3);
        let v = trim_chars(&inner);
        if v.len() > 0 {
            Some(v)
        } else {
            None
        }
    } else {
        None
    }
}

} // verus!
