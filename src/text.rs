//! Splitting text on a separator character, the lines of a text, and the
//! components of a slash-separated path.
use vstd::prelude::*;
use vstd::std_specs::iter::IteratorSpec;

verus! {

/// The pieces of `s` between occurrences of `sep`, in order; `n` separators give
/// `n + 1` pieces, some of which may be empty.
pub open spec fn split_on(s: Seq<char>, sep: char) -> Seq<Seq<char>>
    decreases s.len(),
{
    if s.len() == 0 {
        seq![Seq::empty()]
    } else {
        let parts = split_on(s.drop_last(), sep);
        if s.last() == sep {
            parts.push(Seq::empty())
        } else {
            parts.update(parts.len() - 1, parts.last().push(s.last()))
        }
    }
}

pub proof fn lemma_split_on_nonempty(s: Seq<char>, sep: char)
    ensures
        split_on(s, sep).len() >= 1,
    decreases s.len(),
{
    if s.len() > 0 {
        lemma_split_on_nonempty(s.drop_last(), sep);
    }
}

/// The view of each string of a sequence.
pub open spec fn views(v: Seq<String>) -> Seq<Seq<char>> {
    v.map_values(|s: String| s@)
}

/// A line without the carriage return that ends it, if any.
pub open spec fn strip_cr(line: Seq<char>) -> Seq<char> {
    if line.len() > 0 && line.last() == '\r' {
        line.drop_last()
    } else {
        line
    }
}

/// The lines of a text: split at each `\n`, each line without its `\r\n` or `\n`
/// ending; a final line ending is optional, and a bare `\r` at the very end is kept.
pub open spec fn lines_of(s: Seq<char>) -> Seq<Seq<char>> {
    let parts = split_on(s, '\n');
    let ended = parts.take(parts.len() - 1).map_values(|p: Seq<char>| strip_cr(p));
    if parts.last().len() == 0 {
        ended
    } else {
        ended.push(parts.last())
    }
}

/// The pieces of `parts` that name a directory step: neither empty nor `.`.
pub open spec fn normal_parts(parts: Seq<Seq<char>>) -> Seq<Seq<char>>
    decreases parts.len(),
{
    if parts.len() == 0 {
        Seq::empty()
    } else {
        let init = normal_parts(parts.drop_last());
        if parts.last().len() == 0 || parts.last() == seq!['.'] {
            init
        } else {
            init.push(parts.last())
        }
    }
}

/// The components of a path, compared one by one as paths are: a leading `/`
/// is a component `/` of its own, a leading `.` stays, and elsewhere empty
/// pieces (repeated or trailing slashes) and `.` pieces drop out.
pub open spec fn path_components(p: Seq<char>) -> Seq<Seq<char>> {
    let parts = split_on(p, '/');
    let head: Seq<Seq<char>> = if parts[0].len() > 0 {
        seq![parts[0]]
    } else if p.len() > 0 {
        seq![seq!['/']]
    } else {
        Seq::empty()
    };
    head + normal_parts(parts.drop_first())
}

/// Whether `prefix` is an initial run of `s`.
pub open spec fn is_prefix_of<A>(prefix: Seq<A>, s: Seq<A>) -> bool {
    prefix.len() <= s.len() && s.take(prefix.len() as int) == prefix
}

/// Relies on `String::push`: appends one character.
#[verifier::external_body]
fn push_char(s: &mut String, c: char)
    ensures
        final(s)@ == old(s)@.push(c),
{
    s.push(c)
}

/// Splits `s` at every occurrence of `sep`.
pub fn split_string(s: &str, sep: char) -> (r: Vec<String>)
    ensures
        views(r@) == split_on(s@, sep),
{
    let mut chars = s.chars();
    let mut parts: Vec<String> = Vec::new();
    let mut current = String::new();
    let ghost mut i: int = 0;
    proof {
        assert(s@.take(0) =~= Seq::<char>::empty());
        assert(split_on(s@.take(0), sep) =~= views(parts@).push(current@));
        assert(s@.skip(0) =~= s@);
    }
    loop
        invariant
            0 <= i <= s@.len(),
            chars.obeys_prophetic_iter_laws(),
            chars.remaining() == s@.skip(i),
            split_on(s@.take(i), sep) == views(parts@).push(current@),
        ensures
            i == s@.len(),
            split_on(s@.take(i), sep) == views(parts@).push(current@),
        decreases s@.len() - i,
    {
        match chars.next() {
            None => {
                assert(s@.skip(i).len() == 0);
                break;
            },
            Some(c) => {
                let ghost prev = s@.take(i);
                proof {
                    assert(c == s@[i]);
                    assert(s@.take(i + 1).drop_last() =~= prev);
                    assert(s@.take(i + 1).last() == c);
                }
                if c == sep {
                    let piece = current;
                    parts.push(piece);
                    current = String::new();
                    proof {
                        assert(views(parts@) =~= split_on(prev, sep));
                        assert(split_on(s@.take(i + 1), sep) == split_on(prev, sep).push(Seq::empty()));
                        assert(split_on(s@.take(i + 1), sep) =~= views(parts@).push(current@));
                    }
                } else {
                    let ghost cur = current@;
                    push_char(&mut current, c);
                    proof {
                        let before = views(parts@).push(cur);
                        assert(split_on(s@.take(i + 1), sep) == before.update(
                            before.len() - 1,
                            before.last().push(c),
                        ));
                        assert(split_on(s@.take(i + 1), sep) =~= views(parts@).push(current@));
                    }
                }
                proof {
                    assert(s@.skip(i + 1) =~= s@.skip(i).drop_first());
                    i = i + 1;
                }
            },
        }
    }
    parts.push(current);
    proof {
        assert(s@.take(i) =~= s@);
        assert(views(parts@) =~= split_on(s@, sep));
    }
    parts
}

/// The line without a final carriage return.
pub fn strip_carriage_return(line: &String) -> (r: String)
    ensures
        r@ == strip_cr(line@),
{
    let n = line.as_str().unicode_len();
    if n > 0 && line.as_str().get_char(n - 1) == '\r' {
        String::from_str(line.as_str().substring_char(0, n - 1))
    } else {
        line.clone()
    }
}

/// The lines of a text, as `str::lines` gives them.
pub fn text_lines(s: &str) -> (r: Vec<String>)
    ensures
        views(r@) == lines_of(s@),
{
    let parts = split_string(s, '\n');
    proof {
        lemma_split_on_nonempty(s@, '\n');
    }
    let last_index = parts.len() - 1;
    let mut lines: Vec<String> = Vec::new();
    let mut j: usize = 0;
    while j < last_index
        invariant
            views(parts@) == split_on(s@, '\n'),
            last_index == parts@.len() - 1,
            j <= last_index,
            views(lines@) == views(parts@).take(j as int).map_values(|p: Seq<char>| strip_cr(p)),
        decreases last_index - j,
    {
        let line = strip_carriage_return(&parts[j]);
        let ghost before = views(lines@);
        lines.push(line);
        j = j + 1;
        proof {
            assert(views(lines@) =~= before.push(line@));
            assert(views(parts@)[j - 1] == parts@[j - 1]@);
            assert(views(parts@).take(j as int) =~= views(parts@).take(j - 1).push(parts@[j - 1]@));
            assert(views(lines@) =~= views(parts@).take(j as int).map_values(
                |p: Seq<char>| strip_cr(p),
            ));
        }
    }
    let last = &parts[last_index];
    if last.as_str().unicode_len() > 0 {
        lines.push(last.clone());
    }
    proof {
        assert(views(parts@).last() == parts@[last_index as int]@);
        if last@.len() == 0 {
            assert(views(lines@) =~= lines_of(s@));
        } else {
            assert(views(lines@) =~= lines_of(s@));
        }
    }
    lines
}

/// Whether a piece of a path is empty or `.`.
fn is_dot_or_empty(part: &String) -> (r: bool)
    ensures
        r == (part@.len() == 0 || part@ == seq!['.']),
{
    let n = part.as_str().unicode_len();
    if n == 0 {
        true
    } else if n == 1 && part.as_str().get_char(0) == '.' {
        assert(part@ =~= seq!['.']);
        true
    } else {
        false
    }
}

/// The components of a slash-separated path.
pub fn components(p: &str) -> (r: Vec<String>)
    ensures
        views(r@) == path_components(p@),
{
    let parts = split_string(p, '/');
    proof {
        lemma_split_on_nonempty(p@, '/');
    }
    let mut out: Vec<String> = Vec::new();
    if parts[0].as_str().unicode_len() > 0 {
        out.push(parts[0].clone());
        assert(views(out@) =~= seq![parts@[0]@]);
    } else if p.unicode_len() > 0 {
        out.push(String::from_str("/"));
        proof {
            reveal_strlit("/");
            assert("/"@ =~= seq!['/']);
            assert(views(out@) =~= seq![seq!['/']]);
        }
    } else {
        assert(views(out@) =~= Seq::<Seq<char>>::empty());
    }
    let ghost head = views(out@);
    let ghost rest = views(parts@).drop_first();
    proof {
        assert(rest.subrange(0, 0) =~= Seq::<Seq<char>>::empty());
        assert(views(out@) =~= head + normal_parts(rest.subrange(0, 0)));
    }
    let mut j: usize = 1;
    while j < parts.len()
        invariant
            views(parts@) == split_on(p@, '/'),
            rest == views(parts@).drop_first(),
            1 <= j <= parts@.len(),
            views(out@) == head + normal_parts(rest.subrange(0, j - 1)),
        decreases parts@.len() - j,
    {
        proof {
            assert(rest.subrange(0, j as int).drop_last() =~= rest.subrange(0, j - 1));
            assert(rest.subrange(0, j as int).last() == parts@[j as int]@);
        }
        let ghost before = views(out@);
        if !is_dot_or_empty(&parts[j]) {
            out.push(parts[j].clone());
            proof {
                assert(views(out@) =~= before.push(parts@[j as int]@));
            }
        }
        proof {
            assert(views(out@) =~= head + normal_parts(rest.subrange(0, j as int)));
        }
        j = j + 1;
    }
    proof {
        assert(views(parts@)[0] == parts@[0]@);
        assert(rest.subrange(0, rest.len() as int) =~= rest);
        assert(views(out@) =~= path_components(p@));
    }
    out
}

/// Whether `base` is an initial run of `path`, component by component.
pub fn starts_with_components(path: &Vec<String>, base: &Vec<String>) -> (r: bool)
    ensures
        r == is_prefix_of(views(base@), views(path@)),
{
    if base.len() > path.len() {
        return false;
    }
    let mut k: usize = 0;
    while k < base.len()
        invariant
            base@.len() <= path@.len(),
            k <= base@.len(),
            forall|m: int| 0 <= m < k ==> path@[m]@ == base@[m]@,
        decreases base@.len() - k,
    {
        if path[k] != base[k] {
            assert(views(path@).take(base@.len() as int)[k as int] != views(base@)[k as int]);
            return false;
        }
        k = k + 1;
    }
    assert(views(path@).take(base@.len() as int) =~= views(base@));
    true
}

} // verus!
