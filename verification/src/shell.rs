//! Parsing a shell line into its main token and argument list.
//!
//! A line is cut at every single space, exactly as the agent hands the
//! pieces to the local process spawner: consecutive spaces yield empty
//! arguments, and a line that is empty or starts with a space has no main
//! token and parses to nothing.

use vstd::prelude::*;

verus! {

/// The segments of `s` between spaces. Always at least one segment; empty
/// segments stand between consecutive spaces and at the ends.
pub open spec fn split_spaces(s: Seq<char>) -> Seq<Seq<char>>
    decreases s.len(),
{
    if s.len() == 0 {
        seq![Seq::<char>::empty()]
    } else if s[0] == ' ' {
        seq![Seq::<char>::empty()] + split_spaces(s.drop_first())
    } else {
        let rest = split_spaces(s.drop_first());
        seq![seq![s[0]] + rest[0]] + rest.drop_first()
    }
}

/// Splitting never yields an empty segment list.
pub proof fn lemma_split_spaces_len(s: Seq<char>)
    ensures
        split_spaces(s).len() >= 1,
    decreases s.len(),
{
    if s.len() > 0 {
        lemma_split_spaces_len(s.drop_first());
    }
}

/// How one more character extends the segments: a space opens a new empty
/// segment, any other character grows the last one.
pub proof fn lemma_split_spaces_push(s: Seq<char>, c: char)
    ensures
        c == ' ' ==> split_spaces(s.push(c)) == split_spaces(s).push(Seq::<char>::empty()),
        c != ' ' ==> split_spaces(s.push(c)) == split_spaces(s).update(
            split_spaces(s).len() - 1,
            split_spaces(s).last().push(c),
        ),
    decreases s.len(),
{
    lemma_split_spaces_len(s);
    if s.len() == 0 {
        let one = s.push(c);
        assert(one.drop_first() =~= Seq::<char>::empty());
        assert(split_spaces(Seq::<char>::empty()) == seq![Seq::<char>::empty()]);
        assert(one[0] == c);
        if c == ' ' {
            assert(split_spaces(one) == seq![Seq::<char>::empty()] + split_spaces(one.drop_first()));
            assert(split_spaces(one) =~= split_spaces(s).push(Seq::<char>::empty()));
        } else {
            let rest = split_spaces(one.drop_first());
            assert(split_spaces(one) == seq![seq![c] + rest[0]] + rest.drop_first());
            assert(rest.drop_first() =~= Seq::<Seq<char>>::empty());
            assert(seq![c] + Seq::<char>::empty() =~= seq![c]);
            assert(Seq::<char>::empty().push(c) =~= seq![c]);
            assert(split_spaces(one) =~= split_spaces(s).update(0, split_spaces(s).last().push(c)));
        }
    } else {
        let tail = s.drop_first();
        lemma_split_spaces_len(tail);
        lemma_split_spaces_push(tail, c);
        let ext = s.push(c);
        assert(ext[0] == s[0]);
        assert(ext.drop_first() =~= tail.push(c));
        let rest = split_spaces(tail);
        let rest2 = split_spaces(tail.push(c));
        if s[0] == ' ' {
            if c == ' ' {
                assert(split_spaces(ext) =~= split_spaces(s).push(Seq::<char>::empty()));
            } else {
                assert(split_spaces(ext) =~= split_spaces(s).update(
                    split_spaces(s).len() - 1,
                    split_spaces(s).last().push(c),
                ));
            }
        } else {
            if c == ' ' {
                assert(rest2 == rest.push(Seq::<char>::empty()));
                assert(rest2[0] == rest[0]);
                assert(rest2.drop_first() =~= rest.drop_first().push(Seq::<char>::empty()));
                assert(split_spaces(ext) =~= split_spaces(s).push(Seq::<char>::empty()));
            } else {
                assert(rest2 == rest.update(rest.len() - 1, rest.last().push(c)));
                if rest.len() == 1 {
                    assert(rest2[0] == rest[0].push(c));
                    assert(seq![s[0]] + rest[0].push(c) =~= (seq![s[0]] + rest[0]).push(c));
                    assert(rest2.drop_first() =~= rest.drop_first());
                    assert(split_spaces(s).last() == seq![s[0]] + rest[0]);
                    assert(split_spaces(ext) =~= split_spaces(s).update(
                        split_spaces(s).len() - 1,
                        split_spaces(s).last().push(c),
                    ));
                } else {
                    assert(rest2[0] == rest[0]);
                    assert(rest2.drop_first() =~= rest.drop_first().update(
                        rest.len() - 2,
                        rest.last().push(c),
                    ));
                    assert(split_spaces(s).last() == rest.last());
                    assert(split_spaces(ext) =~= split_spaces(s).update(
                        split_spaces(s).len() - 1,
                        split_spaces(s).last().push(c),
                    ));
                }
            }
        }
    }
}

/// Cut a shell line into its main token and arguments. A line that is empty
/// or starts with a space has an empty main token and parses to nothing;
/// otherwise the main token is the first space-separated segment and the
/// arguments are all the following segments, empty ones included.
pub fn parse_command(command: String) -> (r: Option<(String, Vec<String>)>)
    ensures
        r is Some <==> command@.len() > 0 && command@[0] != ' ',
        r is Some ==> r.unwrap().0@ == split_spaces(command@)[0],
        r is Some ==> r.unwrap().1@.map_values(|a: String| a@) == split_spaces(
            command@,
        ).drop_first(),
{
    let line = command.as_str();
    let n = line.unicode_len();
    if n == 0 {
        return None;
    }
    if line.get_char(0) == ' ' {
        return None;
    }
    let mut segments: Vec<String> = Vec::new();
    let mut start: usize = 0;
    let mut k: usize = 0;
    proof {
        assert(line@.take(0) =~= Seq::<char>::empty());
        assert(segments@.map_values(|a: String| a@) =~= Seq::<Seq<char>>::empty());
        assert(split_spaces(line@.take(0)) =~= seq![Seq::<char>::empty()]);
        assert(line@.subrange(0, 0) =~= Seq::<char>::empty());
    }
    while k < n
        invariant
            n == line@.len(),
            k <= n,
            start <= k,
            split_spaces(line@.take(k as int)) == segments@.map_values(|a: String| a@).push(
                line@.subrange(start as int, k as int),
            ),
        decreases n - k,
    {
        let ghost prefix = line@.take(k as int);
        let ghost segs = segments@.map_values(|a: String| a@);
        let c = line.get_char(k);
        proof {
            assert(line@.take(k + 1 as int) =~= prefix.push(line@[k as int]));
            lemma_split_spaces_push(prefix, line@[k as int]);
            lemma_split_spaces_len(prefix);
        }
        if c == ' ' {
            let seg = line.substring_char(start, k);
            segments.push(seg.to_owned());
            proof {
                assert(segments@.map_values(|a: String| a@) =~= segs.push(
                    line@.subrange(start as int, k as int),
                ));
                assert(line@.subrange(k + 1 as int, k + 1 as int) =~= Seq::<char>::empty());
                assert(split_spaces(line@.take(k + 1 as int)) =~= segments@.map_values(
                    |a: String| a@,
                ).push(line@.subrange(k + 1 as int, k + 1 as int)));
            }
            start = k + 1;
        } else {
            proof {
                let whole = split_spaces(prefix);
                assert(split_spaces(line@.take(k + 1 as int)) == whole.update(
                    whole.len() - 1,
                    whole.last().push(line@[k as int]),
                ));
                assert(whole.last() == line@.subrange(start as int, k as int));
                assert(line@.subrange(start as int, k as int).push(line@[k as int]) =~= line@
                    .subrange(start as int, k + 1 as int));
                assert(split_spaces(line@.take(k + 1 as int)) =~= segs.push(
                    line@.subrange(start as int, k + 1 as int),
                ));
            }
        }
        k = k + 1;
    }
    let last = line.substring_char(start, n);
    segments.push(last.to_owned());
    proof {
        assert(line@.take(n as int) =~= line@);
        assert(segments@.map_values(|a: String| a@) =~= split_spaces(line@));
        lemma_split_spaces_len(line@);
    }
    let main = segments.remove(0);
    proof {
        assert(main@ == split_spaces(line@)[0]);
        assert(segments@.map_values(|a: String| a@) =~= split_spaces(line@).drop_first());
    }
    Some((main, segments))
}

} // verus!
