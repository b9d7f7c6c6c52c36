//! The blacklist of names: an ordered, duplicate-free list with a
//! one-name-per-line plain-text form.

use crate::text::str_eq;
use vstd::prelude::*;
use vstd::string::*;

verus! {

/// The views of a sequence of strings.
pub open spec fn str_views(v: Seq<String>) -> Seq<Seq<char>> {
    v.map_values(|s: String| s@)
}

/// The position of the first newline at or after `from` in `s`, or the
/// length of `s` when there is none.
pub open spec fn find_nl(s: Seq<char>, from: int) -> int
    decreases s.len() - from,
{
    if from >= s.len() {
        s.len() as int
    } else if s[from] == '\n' {
        from
    } else {
        find_nl(s, from + 1)
    }
}

/// `find_nl` is exactly the position of the first newline.
pub proof fn lemma_find_nl_is(s: Seq<char>, from: int, j: int)
    requires
        0 <= from <= j <= s.len(),
        forall|k: int| from <= k < j ==> s[k] != '\n',
        j == s.len() || s[j] == '\n',
    ensures
        find_nl(s, from) == j,
    decreases j - from,
{
    if from < j {
        lemma_find_nl_is(s, from + 1, j);
    }
}

/// The range of `find_nl`, and that it points at the first newline.
pub proof fn lemma_find_nl_range(s: Seq<char>, from: int)
    requires
        0 <= from <= s.len(),
    ensures
        from <= find_nl(s, from) <= s.len(),
        forall|k: int| from <= k < find_nl(s, from) ==> s[k] != '\n',
        find_nl(s, from) < s.len() ==> s[find_nl(s, from)] == '\n',
    decreases s.len() - from,
{
    if from < s.len() && s[from] != '\n' {
        lemma_find_nl_range(s, from + 1);
    }
}

/// The lines of `s`: maximal newline-free runs. A trailing newline closes
/// the last line and adds no empty one.
pub open spec fn lines_of(s: Seq<char>) -> Seq<Seq<char>>
    decreases s.len(),
    via lines_of_decreases
{
    if s.len() == 0 {
        Seq::empty()
    } else {
        let j = find_nl(s, 0);
        if j == s.len() {
            seq![s]
        } else {
            seq![s.take(j)] + lines_of(s.skip(j + 1))
        }
    }
}

#[via_fn]
proof fn lines_of_decreases(s: Seq<char>) {
    if s.len() > 0 {
        lemma_find_nl_range(s, 0);
    }
}

/// The plain-text form of the blacklist: each name followed by one
/// newline.
pub open spec fn rendered(names: Seq<Seq<char>>) -> Seq<char>
    decreases names.len(),
{
    if names.len() == 0 {
        Seq::empty()
    } else {
        names[0] + seq!['\n'] + rendered(names.skip(1))
    }
}

/// Adding a name: a no-op when it is already present, else an append at
/// the end.
pub open spec fn add_spec(bl: Seq<Seq<char>>, name: Seq<char>) -> Seq<Seq<char>> {
    if bl.contains(name) {
        bl
    } else {
        bl.push(name)
    }
}

/// No two entries are equal.
pub open spec fn distinct(names: Seq<Seq<char>>) -> bool {
    forall|i: int, j: int| 0 <= i < j < names.len() ==> names[i] != names[j]
}

/// A name that survives the line format: it holds no newline.
pub open spec fn line_safe(name: Seq<char>) -> bool {
    !name.contains('\n')
}

/// Is `name` one of the entries?
pub fn black_list_contains(bl: &Vec<String>, name: &str) -> (r: bool)
    ensures
        r == str_views(bl@).contains(name@),
{
    let n = bl.len();
    let mut i: usize = 0;
    while i < n
        invariant
            n == bl@.len(),
            0 <= i <= n,
            forall|k: int| 0 <= k < i ==> str_views(bl@)[k] != name@,
        decreases n - i,
    {
        if str_eq(bl[i].as_str(), name) {
            proof {
                assert(str_views(bl@)[i as int] == name@);
            }
            return true;
        }
        i = i + 1;
    }
    proof {
        assert(forall|k: int| 0 <= k < n ==> str_views(bl@)[k] != name@);
    }
    false
}

/// Add `name` to the list unless it is already there. True exactly when
/// the list grew.
pub fn add_to_black_list(bl: &mut Vec<String>, name: &str) -> (added: bool)
    ensures
        str_views(final (bl)@) == add_spec(str_views(old(bl)@), name@),
        added == !str_views(old(bl)@).contains(name@),
{
    if black_list_contains(bl, name) {
        false
    } else {
        bl.push(name.to_owned());
        proof {
            assert(str_views(bl@) =~= str_views(old(bl)@).push(name@));
        }
        true
    }
}

/// Render the blacklist in its plain-text form, one name per line.
pub fn render_black_list(bl: &Vec<String>) -> (r: String)
    ensures
        r@ == rendered(str_views(bl@)),
{
    proof {
        reveal_strlit("\n");
    }
    let n = bl.len();
    let mut out = String::new();
    let mut i: usize = 0;
    while i < n
        invariant
            n == bl@.len(),
            0 <= i <= n,
            out@ == rendered(str_views(bl@.take(i as int))),
            "\n"@ == seq!['\n'],
        decreases n - i,
    {
        out.append(bl[i].as_str());
        out.append("\n");
        proof {
            lemma_rendered_snoc(str_views(bl@.take(i as int)), bl@[i as int]@);
            assert(str_views(bl@.take(i + 1)) =~= str_views(bl@.take(i as int)).push(
                bl@[i as int]@,
            ));
            assert(out@ =~= rendered(str_views(bl@.take(i as int))) + bl@[i as int]@
                + seq!['\n']);
        }
        i = i + 1;
    }
    proof {
        assert(bl@.take(n as int) =~= bl@);
    }
    out
}

/// Rendering appends at the back, name by name.
pub proof fn lemma_rendered_snoc(names: Seq<Seq<char>>, x: Seq<char>)
    ensures
        rendered(names.push(x)) == rendered(names) + x + seq!['\n'],
    decreases names.len(),
{
    if names.len() == 0 {
        assert(names.push(x)[0] == x);
        assert(names.push(x).skip(1) =~= Seq::<Seq<char>>::empty());
        assert(rendered(Seq::<Seq<char>>::empty()) == Seq::<char>::empty());
        assert(rendered(names.push(x)) == x + seq!['\n'] + rendered(names.push(x).skip(1)));
        assert(rendered(names.push(x)) =~= rendered(names) + x + seq!['\n']);
    } else {
        lemma_rendered_snoc(names.skip(1), x);
        assert(names.push(x).skip(1) =~= names.skip(1).push(x));
        assert(names.push(x)[0] == names[0]);
        assert(rendered(names.push(x)) == names[0] + seq!['\n'] + rendered(
            names.skip(1).push(x),
        ));
        assert(rendered(names.skip(1).push(x)) == rendered(names.skip(1)) + x + seq!['\n']);
        assert(rendered(names) == names[0] + seq!['\n'] + rendered(names.skip(1)));
        assert(names[0] + seq!['\n'] + (rendered(names.skip(1)) + x + seq!['\n']) =~= (names[0]
            + seq!['\n'] + rendered(names.skip(1))) + x + seq!['\n']);
    }
}

/// Find the first newline at or after `from`, or the end of the text.
fn find_newline(text: &str, from: usize, len: usize) -> (j: usize)
    requires
        len == text@.len(),
        from <= len,
    ensures
        from <= j <= len,
        j == find_nl(text@, from as int),
    decreases len - from,
{
    let mut j: usize = from;
    loop
        invariant
            len == text@.len(),
            from <= j <= len,
            forall|k: int| from <= k < j ==> text@[k] != '\n',
        decreases len - j,
    {
        if j == len {
            proof {
                lemma_find_nl_is(text@, from as int, j as int);
            }
            return j;
        }
        if text.get_char(j) == '\n' {
            proof {
                lemma_find_nl_is(text@, from as int, j as int);
            }
            return j;
        }
        j = j + 1;
    }
}

/// Split a persisted blacklist back into its names, one per line.
pub fn parse_black_list(text: &str) -> (r: Vec<String>)
    ensures
        str_views(r@) == lines_of(text@),
{
    let len = text.unicode_len();
    let mut out: Vec<String> = Vec::new();
    let mut pos: usize = 0;
    proof {
        assert(text@.skip(0) =~= text@);
        assert(str_views(out@) + lines_of(text@.skip(0)) =~= lines_of(text@));
    }
    while pos < len
        invariant
            len == text@.len(),
            0 <= pos <= len,
            str_views(out@) + lines_of(text@.skip(pos as int)) == lines_of(text@),
        decreases len - pos,
    {
        let ghost s1 = text@.skip(pos as int);
        let j = find_newline(text, pos, len);
        let line = text.substring_char(pos, j);
        proof {
            lemma_find_nl_range(text@, pos as int);
            assert forall|k: int| 0 <= k < j - pos implies s1[k] != '\n' by {
                assert(s1[k] == text@[pos + k]);
            }
            if j < len {
                assert(text@[j as int] == '\n');
                assert(s1[j - pos] == text@[j as int]);
            }
            lemma_find_nl_is(s1, 0, j - pos);
            assert(s1.take(j - pos) =~= text@.subrange(pos as int, j as int));
        }
        let ghost prev_out = out@;
        out.push(line.to_owned());
        let next_pos = if j < len {
            j + 1
        } else {
            j
        };
        proof {
            assert(str_views(out@) =~= str_views(prev_out).push(line@));
            if j < len {
                assert(s1.skip(j - pos + 1) =~= text@.skip(next_pos as int));
                assert(lines_of(s1) == seq![s1.take(j - pos)] + lines_of(s1.skip(j - pos + 1)));
            } else {
                assert(lines_of(s1) == seq![s1]);
                assert(s1.take(j - pos) =~= s1);
                assert(lines_of(text@.skip(next_pos as int)) =~= Seq::<Seq<char>>::empty());
            }
            assert(str_views(out@) + lines_of(text@.skip(next_pos as int)) =~= str_views(
                prev_out,
            ) + lines_of(s1));
        }
        pos = next_pos;
    }
    proof {
        assert(lines_of(text@.skip(pos as int)) =~= Seq::<Seq<char>>::empty());
        assert(str_views(out@) =~= lines_of(text@));
    }
    out
}

/// Adding the same name twice is adding it once.
pub proof fn lemma_add_idempotent(bl: Seq<Seq<char>>, name: Seq<char>)
    ensures
        add_spec(add_spec(bl, name), name) == add_spec(bl, name),
{
    if !bl.contains(name) {
        assert(bl.push(name)[bl.len() as int] == name);
        assert(bl.push(name).contains(name));
    }
}

/// Adding never introduces a duplicate.
pub proof fn lemma_add_keeps_distinct(bl: Seq<Seq<char>>, name: Seq<char>)
    requires
        distinct(bl),
    ensures
        distinct(add_spec(bl, name)),
{
    if !bl.contains(name) {
        assert forall|i: int, j: int|
            0 <= i < j < add_spec(bl, name).len() implies add_spec(bl, name)[i] != add_spec(
            bl,
            name,
        )[j] by {
            if j == bl.len() {
                assert(add_spec(bl, name)[i] == bl[i]);
                if bl[i] == name {
                    assert(bl.contains(name));
                }
            }
        }
    }
}

/// A rendered blacklist of newline-free names reads back exactly as it
/// was: the persisted form loses nothing and invents nothing.
pub proof fn lemma_lines_of_rendered(names: Seq<Seq<char>>)
    requires
        forall|i: int| 0 <= i < names.len() ==> line_safe(#[trigger] names[i]),
    ensures
        lines_of(rendered(names)) == names,
    decreases names.len(),
{
    if names.len() == 0 {
        assert(lines_of(rendered(names)) =~= names);
    } else {
        let n0 = names[0];
        let s = rendered(names);
        assert(s == n0 + seq!['\n'] + rendered(names.skip(1)));
        assert forall|k: int| 0 <= k < n0.len() implies s[k] != '\n' by {
            assert(s[k] == n0[k]);
            if n0[k] == '\n' {
                assert(n0.contains('\n'));
            }
        }
        assert(s[n0.len() as int] == '\n');
        lemma_find_nl_is(s, 0, n0.len() as int);
        assert forall|i: int| 0 <= i < names.skip(1).len() implies line_safe(
            #[trigger] names.skip(1)[i],
        ) by {
            assert(names.skip(1)[i] == names[i + 1]);
        }
        lemma_lines_of_rendered(names.skip(1));
        assert(s.take(n0.len() as int) =~= n0);
        assert(s.skip(n0.len() as int + 1) =~= rendered(names.skip(1)));
        assert(lines_of(s) =~= names);
    }
}

} // verus!
