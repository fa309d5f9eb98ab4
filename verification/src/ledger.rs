//! The completion ledger: an append-only file of newline-delimited
//! repository ids, read whole into memory at startup and consulted there for
//! every membership check afterwards.
use vstd::prelude::*;

verus! {

/// A value that can stand as one ledger entry: it contains no newline.
pub open spec fn nl_free(s: Seq<char>) -> bool {
    forall|i: int| 0 <= i < s.len() ==> #[trigger] s[i] != '\n'
}

/// Index of the first newline in `s`, or `s.len()` if there is none.
pub open spec fn first_nl(s: Seq<char>) -> int
    decreases s.len(),
{
    if s.len() == 0 {
        0
    } else if s[0] == '\n' {
        0
    } else {
        1 + first_nl(s.subrange(1, s.len() as int))
    }
}

pub proof fn lemma_first_nl(s: Seq<char>)
    ensures
        0 <= first_nl(s) <= s.len(),
        first_nl(s) < s.len() ==> s[first_nl(s)] == '\n',
        forall|i: int| 0 <= i < first_nl(s) ==> s[i] != '\n',
    decreases s.len(),
{
    if s.len() > 0 && s[0] != '\n' {
        let rest = s.subrange(1, s.len() as int);
        lemma_first_nl(rest);
        let fr = first_nl(rest);
        assert(first_nl(s) == 1 + fr);
        if fr < rest.len() {
            assert(s[1 + fr] == rest[fr]);
        }
        assert forall|i: int| 0 <= i < 1 + fr implies s[i] != '\n' by {
            if i >= 1 {
                assert(s[i] == rest[i - 1]);
            }
        }
    }
}

/// The ids held by a ledger file, in file order: the maximal newline-free
/// segments, with no trailing empty entry when the file ends in a newline.
pub open spec fn split_lines(s: Seq<char>) -> Seq<Seq<char>>
    decreases s.len(),
    via split_lines_decreases
{
    if s.len() == 0 {
        Seq::empty()
    } else {
        let k = first_nl(s);
        if k == s.len() {
            seq![s]
        } else {
            seq![s.subrange(0, k)] + split_lines(s.subrange(k + 1, s.len() as int))
        }
    }
}

#[via_fn]
proof fn split_lines_decreases(s: Seq<char>) {
    lemma_first_nl(s);
}

/// The ledger file content for the ids `lines`, one per line.
pub open spec fn join_lines(lines: Seq<Seq<char>>) -> Seq<char>
    decreases lines.len(),
{
    if lines.len() == 0 {
        Seq::empty()
    } else {
        lines[0] + seq!['\n'] + join_lines(lines.drop_first())
    }
}

/// Splitting takes one whole line at a time off the front.
pub proof fn lemma_split_lines_step(line: Seq<char>, rest: Seq<char>)
    requires
        forall|i: int| 0 <= i < line.len() ==> line[i] != '\n',
    ensures
        split_lines(line + seq!['\n'] + rest) == seq![line] + split_lines(rest),
{
    let s = line + seq!['\n'] + rest;
    assert(s.len() == line.len() + 1 + rest.len());
    assert(s[line.len() as int] == '\n');
    assert(forall|i: int| 0 <= i < line.len() ==> s[i] == line[i]);
    lemma_first_nl(s);
    assert(first_nl(s) == line.len()) by {
        if first_nl(s) < line.len() {
            assert(s[first_nl(s)] == line[first_nl(s)]);
        }
        if first_nl(s) > line.len() {
            assert(s[line.len() as int] != '\n');
        }
    }
    assert(s.len() > 0);
    assert(first_nl(s) < s.len());
    assert(s.subrange(0, line.len() as int) =~= line);
    assert(s.subrange(line.len() as int + 1, s.len() as int) =~= rest);
}

/// Reading a ledger back yields exactly the ids that were appended, in
/// order, provided no id contains a newline.
pub proof fn lemma_split_join(lines: Seq<Seq<char>>)
    requires
        forall|i: int, j: int|
            0 <= i < lines.len() && 0 <= j < lines[i].len() ==> #[trigger] lines[i][j] != '\n',
    ensures
        split_lines(join_lines(lines)) == lines,
    decreases lines.len(),
{
    if lines.len() == 0 {
    } else {
        let rest = lines.drop_first();
        assert(forall|i: int, j: int|
            0 <= i < rest.len() && 0 <= j < rest[i].len() ==> #[trigger] rest[i][j] != '\n');
        lemma_split_join(rest);
        assert(forall|j: int| 0 <= j < lines[0].len() ==> lines[0][j] != '\n');
        lemma_split_lines_step(lines[0], join_lines(rest));
        assert(seq![lines[0]] + rest =~= lines);
    }
}

/// One ledger append: the id followed by a newline.
pub open spec fn ledger_line(id: Seq<char>) -> Seq<char> {
    id + seq!['\n']
}

/// Appending to the ledger file extends the id list by exactly that id.
pub proof fn lemma_ledger_append(content: Seq<char>, id: Seq<char>)
    requires
        forall|i: int| 0 <= i < id.len() ==> id[i] != '\n',
        content == join_lines(split_lines(content)),
    ensures
        split_lines(content + ledger_line(id)) == split_lines(content).push(id),
    decreases split_lines(content).len(),
{
    let lines = split_lines(content);
    assert(forall|i: int, j: int|
        0 <= i < lines.len() && 0 <= j < lines[i].len() ==> #[trigger] lines[i][j] != '\n') by {
        lemma_split_lines_no_nl(content);
    }
    lemma_join_push(lines, id);
    lemma_split_join(lines.push(id));
}

/// Every id that splitting produces is newline-free.
pub proof fn lemma_split_lines_no_nl(s: Seq<char>)
    ensures
        forall|i: int, j: int|
            0 <= i < split_lines(s).len() && 0 <= j < split_lines(s)[i].len() ==> #[trigger] split_lines(s)[i][j] != '\n',
    decreases s.len(),
{
    if s.len() > 0 {
        let k = first_nl(s);
        lemma_first_nl(s);
        let sl = split_lines(s);
        if k == s.len() {
            assert(sl == seq![s]);
            assert forall|i: int, j: int|
                0 <= i < sl.len() && 0 <= j < sl[i].len() implies #[trigger] sl[i][j]
                != '\n' by {
                assert(sl[i] == s);
            }
        } else {
            let head = s.subrange(0, k);
            let rest = s.subrange(k + 1, s.len() as int);
            lemma_split_lines_no_nl(rest);
            let slr = split_lines(rest);
            assert(sl == seq![head] + slr);
            assert forall|i: int, j: int|
                0 <= i < sl.len() && 0 <= j < sl[i].len() implies #[trigger] sl[i][j]
                != '\n' by {
                if i == 0 {
                    assert(sl[0] == head);
                    assert(head[j] == s[j]);
                } else {
                    assert(sl[i] == slr[i - 1]);
                    assert(slr[i - 1][j] != '\n');
                }
            }
        }
    }
}

/// Joining distributes over a trailing append.
pub proof fn lemma_join_push(lines: Seq<Seq<char>>, id: Seq<char>)
    ensures
        join_lines(lines.push(id)) == join_lines(lines) + ledger_line(id),
    decreases lines.len(),
{
    if lines.len() == 0 {
        assert(lines.push(id).drop_first() =~= Seq::<Seq<char>>::empty());
        assert(lines.push(id)[0] == id);
        assert(join_lines(lines.push(id).drop_first()) == Seq::<char>::empty());
        assert(join_lines(lines.push(id)) == id + seq!['\n'] + Seq::<char>::empty());
        assert(id + seq!['\n'] + Seq::<char>::empty() =~= id + seq!['\n']);
        assert(join_lines(lines) + ledger_line(id) =~= id + seq!['\n']);
    } else {
        assert(lines.push(id).drop_first() =~= lines.drop_first().push(id));
        lemma_join_push(lines.drop_first(), id);
        assert(lines.push(id)[0] == lines[0]);
        assert(join_lines(lines.push(id)) == lines[0] + seq!['\n'] + join_lines(
            lines.drop_first().push(id),
        ));
        assert(lines[0] + seq!['\n'] + (join_lines(lines.drop_first()) + ledger_line(id)) =~= (
        lines[0] + seq!['\n'] + join_lines(lines.drop_first())) + ledger_line(id));
    }
}

/// A newline-terminated file is exactly the join of its lines.
pub proof fn lemma_join_split_terminated(s: Seq<char>)
    requires
        s.len() == 0 || s.last() == '\n',
    ensures
        join_lines(split_lines(s)) == s,
    decreases s.len(),
{
    if s.len() > 0 {
        let k = first_nl(s);
        lemma_first_nl(s);
        assert(s.last() == s[s.len() - 1]);
        assert(k < s.len());
        let head = s.subrange(0, k);
        let rest = s.subrange(k + 1, s.len() as int);
        if rest.len() > 0 {
            assert(rest.last() == s.last());
        }
        lemma_join_split_terminated(rest);
        let sl = split_lines(s);
        assert(sl == seq![head] + rest_split(s));
        assert(sl[0] == head);
        assert(sl.drop_first() =~= split_lines(rest));
        assert(join_lines(sl) == head + seq!['\n'] + join_lines(split_lines(rest)));
        assert(head + seq!['\n'] + rest =~= s);
    }
}

/// The tail of the split after the first line is taken off.
spec fn rest_split(s: Seq<char>) -> Seq<Seq<char>> {
    split_lines(s.subrange(first_nl(s) + 1, s.len() as int))
}

/// A nonempty join always ends in a newline.
pub proof fn lemma_join_terminated(lines: Seq<Seq<char>>)
    requires
        lines.len() > 0,
    ensures
        join_lines(lines).len() > 0,
        join_lines(lines).last() == '\n',
    decreases lines.len(),
{
    if lines.drop_first().len() == 0 {
        assert(join_lines(lines.drop_first()) == Seq::<char>::empty());
        assert(join_lines(lines) =~= lines[0] + seq!['\n']);
    } else {
        lemma_join_terminated(lines.drop_first());
        let tail = join_lines(lines.drop_first());
        assert(join_lines(lines) == lines[0] + seq!['\n'] + tail);
        assert(join_lines(lines).last() == tail.last());
    }
}

/// Position of the next newline in `s` at or after `from`, or the length if
/// there is none.
fn find_nl(s: &str, from: usize, n: usize) -> (j: usize)
    requires
        n == s@.len(),
        from <= n,
    ensures
        from <= j <= n,
        forall|k: int| from <= k < j ==> s@[k] != '\n',
        j < n ==> s@[j as int] == '\n',
{
    let mut j: usize = from;
    while j < n
        invariant
            n == s@.len(),
            from <= j <= n,
            forall|k: int| from <= k < j ==> s@[k] != '\n',
        decreases n - j,
    {
        if s.get_char(j) == '\n' {
            return j;
        }
        j += 1;
    }
    n
}

/// Splits a ledger file's content into the ids it records, in order.
pub fn parse_ledger(s: &str) -> (r: Vec<String>)
    ensures
        r@.map_values(|line: String| line@) == split_lines(s@),
{
    let n = s.unicode_len();
    let mut out: Vec<String> = Vec::new();
    let mut start: usize = 0;
    proof {
        assert(s@.subrange(0, n as int) =~= s@);
        assert(out@.map_values(|l: String| l@) + split_lines(s@) =~= split_lines(s@));
    }
    while start < n
        invariant
            n == s@.len(),
            start <= n,
            out@.map_values(|line: String| line@) + split_lines(
                s@.subrange(start as int, n as int),
            ) == split_lines(s@),
        decreases n - start,
    {
        let ghost rest = s@.subrange(start as int, n as int);
        let j = find_nl(s, start, n);
        let line = s.substring_char(start, j).to_owned();
        proof {
            lemma_first_nl(rest);
            assert(forall|k: int| 0 <= k < rest.len() ==> rest[k] == s@[start + k]);
            if j < n {
                // line ends at a newline: the split takes it off the front
                assert(rest[j - start] == '\n');
                assert(first_nl(rest) == j - start) by {
                    if first_nl(rest) < j - start {
                        assert(s@[start + first_nl(rest)] != '\n');
                        assert(rest[first_nl(rest)] == s@[start + first_nl(rest)]);
                    }
                    if first_nl(rest) > j - start {
                        assert(rest[j - start] != '\n');
                    }
                }
                assert(rest.subrange(0, j - start) =~= line@);
                assert(rest.subrange(j - start + 1, rest.len() as int) =~= s@.subrange(
                    j + 1,
                    n as int,
                ));
                assert(split_lines(rest) == seq![line@] + split_lines(
                    s@.subrange(j + 1, n as int),
                ));
            } else {
                // no further newline: the remainder is the final id
                assert(first_nl(rest) == rest.len()) by {
                    if first_nl(rest) < rest.len() {
                        assert(rest[first_nl(rest)] == s@[start + first_nl(rest)]);
                    }
                }
                assert(rest.subrange(0, j - start) =~= rest);
                assert(split_lines(rest) == seq![line@]);
                assert(split_lines(s@.subrange(n as int, n as int)) =~= Seq::<Seq<char>>::empty());
            }
        }
        let ghost prev = out@;
        out.push(line);
        proof {
            assert(out@ =~= prev.push(line));
            assert(out@.map_values(|l: String| l@) =~= prev.map_values(|l: String| l@).push(
                line@,
            ));
            if j < n {
                assert(prev.map_values(|l: String| l@).push(line@) + split_lines(
                    s@.subrange(j + 1, n as int),
                ) =~= prev.map_values(|l: String| l@) + (seq![line@] + split_lines(
                    s@.subrange(j + 1, n as int),
                )));
            } else {
                assert(prev.map_values(|l: String| l@).push(line@) + split_lines(
                    s@.subrange(n as int, n as int),
                ) =~= prev.map_values(|l: String| l@) + seq![line@]);
            }
        }
        if j < n {
            start = j + 1;
        } else {
            start = n;
        }
    }
    proof {
        assert(split_lines(s@.subrange(n as int, n as int)) =~= Seq::<Seq<char>>::empty());
        assert(out@.map_values(|line: String| line@) =~= out@.map_values(|line: String| line@)
            + split_lines(s@.subrange(n as int, n as int)));
    }
    out
}

} // verus!
