//! Splitting character sequences on a separator, and joining them back.
//!
//! Record lines are fields split on commas, and file contents are lines
//! split on newlines; both are instances of the functions here.

use vstd::prelude::*;

verus! {

/// `s` contains the character `c`.
pub open spec fn has_char(s: Seq<char>, c: char) -> bool {
    exists|i: int| 0 <= i < s.len() && s[i] == c
}

/// Index of the first occurrence of `sep` in `s`, or `s.len()` if there
/// is none.
pub open spec fn spec_find(s: Seq<char>, sep: char) -> nat
    decreases s.len(),
{
    if s.len() == 0 {
        0
    } else if s[0] == sep {
        0
    } else {
        1 + spec_find(s.drop_first(), sep)
    }
}

/// `spec_find` points at the first occurrence of the separator.
pub proof fn lemma_find(s: Seq<char>, sep: char)
    ensures
        spec_find(s, sep) <= s.len(),
        spec_find(s, sep) < s.len() ==> s[spec_find(s, sep) as int] == sep,
        forall|j: int| 0 <= j < spec_find(s, sep) ==> s[j] != sep,
    decreases s.len(),
{
    if s.len() > 0 && s[0] != sep {
        lemma_find(s.drop_first(), sep);
        assert forall|j: int| 0 <= j < spec_find(s, sep) implies s[j] != sep by {
            if j > 0 {
                assert(s.drop_first()[j - 1] == s[j]);
            }
        }
    }
}

/// In a sequence without the separator, `spec_find` runs to the end.
pub proof fn lemma_find_no_sep(s: Seq<char>, sep: char)
    requires
        !has_char(s, sep),
    ensures
        spec_find(s, sep) == s.len(),
    decreases s.len(),
{
    if s.len() > 0 {
        assert(s[0] != sep);
        assert(!has_char(s.drop_first(), sep)) by {
            if has_char(s.drop_first(), sep) {
                let i = choose|i: int| 0 <= i < s.drop_first().len() && s.drop_first()[i] == sep;
                assert(s[i + 1] == sep);
            }
        }
        lemma_find_no_sep(s.drop_first(), sep);
    }
}

/// Put a separator after a separator-free prefix and `spec_find` points
/// at exactly that separator.
pub proof fn lemma_find_append(x: Seq<char>, sep: char, rest: Seq<char>)
    requires
        !has_char(x, sep),
    ensures
        spec_find(x + seq![sep] + rest, sep) == x.len(),
    decreases x.len(),
{
    let s = x + seq![sep] + rest;
    if x.len() == 0 {
        assert(s[0] == sep);
    } else {
        assert(s[0] == x[0]);
        assert(s[0] != sep);
        assert(!has_char(x.drop_first(), sep)) by {
            if has_char(x.drop_first(), sep) {
                let i = choose|i: int|
                    0 <= i < x.drop_first().len() && x.drop_first()[i] == sep;
                assert(x[i + 1] == sep);
            }
        }
        lemma_find_append(x.drop_first(), sep, rest);
        assert(s.drop_first() =~= x.drop_first() + seq![sep] + rest);
    }
}

/// `s` split on `sep`: the fields between the separators, in order. A
/// sequence with `n` separators always yields `n + 1` fields, so an
/// empty sequence yields one empty field.
pub open spec fn spec_split(s: Seq<char>, sep: char) -> Seq<Seq<char>>
    decreases s.len(),
{
    let i = spec_find(s, sep) as int;
    if i >= s.len() {
        seq![s]
    } else {
        seq![s.subrange(0, i)] + spec_split(s.subrange(i + 1, s.len() as int), sep)
    }
}

/// Splitting yields at least one field, and none of the fields contains
/// the separator.
pub proof fn lemma_split_fields(s: Seq<char>, sep: char)
    ensures
        spec_split(s, sep).len() >= 1,
        forall|k: int|
            0 <= k < spec_split(s, sep).len() ==> !has_char(#[trigger] spec_split(s, sep)[k], sep),
    decreases s.len(),
{
    lemma_find(s, sep);
    let i = spec_find(s, sep) as int;
    if i < s.len() {
        let head = s.subrange(0, i);
        let tail = s.subrange(i + 1, s.len() as int);
        assert(!has_char(head, sep)) by {
            if has_char(head, sep) {
                let j = choose|j: int| 0 <= j < head.len() && head[j] == sep;
                assert(s[j] == sep);
            }
        }
        lemma_split_fields(tail, sep);
        assert forall|k: int|
            0 <= k < spec_split(s, sep).len() implies !has_char(
            #[trigger] spec_split(s, sep)[k],
            sep,
        ) by {
            if k > 0 {
                assert(spec_split(s, sep)[k] == spec_split(tail, sep)[k - 1]);
            }
        }
    } else {
        assert(!has_char(s, sep)) by {
            if has_char(s, sep) {
                let j = choose|j: int| 0 <= j < s.len() && s[j] == sep;
            }
        }
    }
}

/// A separator-free sequence is one single field.
pub proof fn lemma_split_single(s: Seq<char>, sep: char)
    requires
        !has_char(s, sep),
    ensures
        spec_split(s, sep) == seq![s],
{
    lemma_find_no_sep(s, sep);
}

/// Splitting distributes over concatenation at a separator.
pub proof fn lemma_split_append(a: Seq<char>, b: Seq<char>, sep: char)
    ensures
        spec_split(a + seq![sep] + b, sep) == spec_split(a, sep) + spec_split(b, sep),
    decreases a.len(),
{
    let s = a + seq![sep] + b;
    lemma_find(a, sep);
    let i = spec_find(a, sep) as int;
    if i >= a.len() {
        // `a` is separator-free: the first separator of `s` is the one
        // between `a` and `b`.
        assert(!has_char(a, sep)) by {
            if has_char(a, sep) {
                let j = choose|j: int| 0 <= j < a.len() && a[j] == sep;
            }
        }
        lemma_find_append(a, sep, b);
        assert(s.subrange(0, a.len() as int) =~= a);
        assert(s.subrange(a.len() as int + 1, s.len() as int) =~= b);
        assert(spec_split(s, sep) =~= seq![a] + spec_split(b, sep));
        assert(spec_split(a, sep) == seq![a]);
    } else {
        let head = a.subrange(0, i);
        let atail = a.subrange(i + 1, a.len() as int);
        assert(!has_char(head, sep)) by {
            if has_char(head, sep) {
                let j = choose|j: int| 0 <= j < head.len() && head[j] == sep;
                assert(a[j] == sep);
            }
        }
        assert(s =~= head + seq![sep] + (atail + seq![sep] + b));
        lemma_find_append(head, sep, atail + seq![sep] + b);
        assert(spec_find(s, sep) == i);
        assert(s.subrange(0, i) =~= head);
        assert(s.subrange(i + 1, s.len() as int) =~= atail + seq![sep] + b);
        lemma_split_append(atail, b, sep);
        assert(spec_split(s, sep) =~= seq![head] + (spec_split(atail, sep) + spec_split(b, sep)));
        assert(spec_split(a, sep) =~= seq![head] + spec_split(atail, sep));
        assert(spec_split(s, sep) =~= spec_split(a, sep) + spec_split(b, sep));
    }
}

/// The fields joined back with the separator between them.
pub open spec fn spec_join(fields: Seq<Seq<char>>, sep: char) -> Seq<char>
    decreases fields.len(),
{
    if fields.len() == 0 {
        Seq::empty()
    } else if fields.len() == 1 {
        fields[0]
    } else {
        fields[0] + seq![sep] + spec_join(fields.drop_first(), sep)
    }
}

/// Joining the split fields gives the sequence back.
pub proof fn lemma_join_split(s: Seq<char>, sep: char)
    ensures
        spec_join(spec_split(s, sep), sep) == s,
    decreases s.len(),
{
    lemma_find(s, sep);
    let i = spec_find(s, sep) as int;
    if i < s.len() {
        let tail = s.subrange(i + 1, s.len() as int);
        lemma_join_split(tail, sep);
        lemma_split_fields(tail, sep);
        let fs = spec_split(s, sep);
        assert(fs.drop_first() =~= spec_split(tail, sep));
        assert(spec_join(fs, sep) =~= s);
    }
}

/// The lines of a file's contents: the text split on newlines, with a
/// single trailing newline closing the last line rather than opening an
/// empty one, as `str::lines` reads it.
pub open spec fn spec_lines(s: Seq<char>) -> Seq<Seq<char>> {
    if s.len() == 0 {
        Seq::empty()
    } else if s.last() == '\n' {
        spec_split(s.drop_last(), '\n')
    } else {
        spec_split(s, '\n')
    }
}

/// No line contains a newline.
pub proof fn lemma_lines_no_newline(s: Seq<char>)
    ensures
        forall|k: int|
            0 <= k < spec_lines(s).len() ==> !has_char(#[trigger] spec_lines(s)[k], '\n'),
{
    if s.len() > 0 {
        if s.last() == '\n' {
            lemma_split_fields(s.drop_last(), '\n');
        } else {
            lemma_split_fields(s, '\n');
        }
    }
}

/// Nonempty contents have at least one line.
pub proof fn lemma_lines_nonempty(s: Seq<char>)
    requires
        s.len() > 0,
    ensures
        spec_lines(s).len() >= 1,
{
    if s.last() == '\n' {
        lemma_split_fields(s.drop_last(), '\n');
    } else {
        lemma_split_fields(s, '\n');
    }
}

/// Appending one newline-free line closed by a newline appends exactly
/// that line, provided the contents so far end at a line boundary.
pub proof fn lemma_lines_snoc(c: Seq<char>, l: Seq<char>)
    requires
        c.len() == 0 || c.last() == '\n',
        !has_char(l, '\n'),
    ensures
        spec_lines(c + l + seq!['\n']) == spec_lines(c) + seq![l],
{
    let w = c + l + seq!['\n'];
    assert(w.last() == '\n');
    assert(w.len() > 0);
    if c.len() == 0 {
        assert(w.drop_last() =~= l);
        lemma_split_single(l, '\n');
        assert(spec_lines(w) =~= Seq::<Seq<char>>::empty() + seq![l]);
    } else {
        assert(w.drop_last() =~= c.drop_last() + seq!['\n'] + l);
        lemma_split_append(c.drop_last(), l, '\n');
        lemma_split_single(l, '\n');
        assert(spec_lines(w) =~= spec_lines(c) + seq![l]);
    }
}

/// `s` split on `sep`, as owned strings.
pub fn split_str(s: &str, sep: char) -> (r: Vec<String>)
    ensures
        r.deep_view() == spec_split(s@, sep),
{
    let n = s.unicode_len();
    let mut r: Vec<String> = Vec::new();
    let mut start: usize = 0;
    let mut i: usize = 0;
    proof {
        assert(s@.subrange(0, n as int) =~= s@);
        assert(r.deep_view() =~= Seq::<Seq<char>>::empty());
        assert(r.deep_view() + spec_split(s@, sep) =~= spec_split(s@, sep));
    }
    while i < n
        invariant
            0 <= start <= i <= n,
            n == s@.len(),
            spec_split(s@, sep) =~= r.deep_view() + spec_split(
                s@.subrange(start as int, n as int),
                sep,
            ),
            !has_char(s@.subrange(start as int, i as int), sep),
        decreases n - i,
    {
        let c = s.get_char(i);
        if c == sep {
            let field = s.substring_char(start, i).to_owned();
            let ghost pre = r.deep_view();
            proof {
                let fseq = s@.subrange(start as int, i as int);
                let rest = s@.subrange(i as int + 1, n as int);
                assert(s@.subrange(start as int, n as int) =~= fseq + seq![sep] + rest);
                lemma_split_append(fseq, rest, sep);
                lemma_split_single(fseq, sep);
            }
            r.push(field);
            proof {
                assert(r.deep_view() =~= pre + seq![s@.subrange(start as int, i as int)]);
                let rest = s@.subrange(i as int + 1, n as int);
                assert(spec_split(s@, sep) =~= r.deep_view() + spec_split(rest, sep));
            }
            start = i + 1;
        } else {
            proof {
                let ext = s@.subrange(start as int, i as int + 1);
                if has_char(ext, sep) {
                    let j = choose|j: int| 0 <= j < ext.len() && ext[j] == sep;
                    if j < i - start {
                        assert(s@.subrange(start as int, i as int)[j] == sep);
                    } else {
                        assert(ext[j] == s@[i as int]);
                    }
                    assert(false);
                }
            }
        }
        i = i + 1;
    }
    let field = s.substring_char(start, n).to_owned();
    let ghost pre = r.deep_view();
    proof {
        lemma_split_single(s@.subrange(start as int, n as int), sep);
    }
    r.push(field);
    proof {
        assert(r.deep_view() =~= pre + seq![s@.subrange(start as int, n as int)]);
        assert(r.deep_view() =~= spec_split(s@, sep));
    }
    r
}

/// The lines of `s`, each without its newline.
pub fn split_lines(s: &str) -> (r: Vec<String>)
    ensures
        r.deep_view() == spec_lines(s@),
{
    let n = s.unicode_len();
    if n == 0 {
        let r: Vec<String> = Vec::new();
        proof {
            assert(r.deep_view() =~= spec_lines(s@));
        }
        return r;
    }
    if s.get_char(n - 1) == '\n' {
        let body = s.substring_char(0, n - 1);
        proof {
            assert(body@ =~= s@.drop_last());
        }
        split_str(body, '\n')
    } else {
        split_str(s, '\n')
    }
}

} // verus!
