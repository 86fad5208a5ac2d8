//! Logical-line assembly: one command may span several physical lines.
//!
//! A line whose trailing run of backslashes has odd length ends in an
//! unescaped backslash: that backslash is the continuation marker.  It is
//! stripped, and the next read is concatenated with a single inserted space —
//! unless one side already ends or starts with a pipe operator, where the
//! space would split the pipeline for no reason.

use vstd::prelude::*;

use crate::lexer::is_space;

verus! {

/// The length of the trailing backslash run.
pub open spec fn trailing_backslashes(s: Seq<u8>) -> int
    decreases s.len(),
{
    if s.len() > 0 && s.last() == 92 {
        1 + trailing_backslashes(s.drop_last())
    } else {
        0
    }
}

/// Whether the line ends in an unescaped backslash: the trailing backslash
/// run has odd length.
pub open spec fn continuation_pending(line: Seq<u8>) -> bool {
    trailing_backslashes(line) % 2 == 1
}

/// The line without its trailing whitespace.
pub open spec fn trim_end_spec(s: Seq<u8>) -> Seq<u8>
    decreases s.len(),
{
    if s.len() > 0 && is_space(s.last()) {
        trim_end_spec(s.drop_last())
    } else {
        s
    }
}

/// The line without its leading whitespace.
pub open spec fn trim_start_spec(s: Seq<u8>) -> Seq<u8>
    decreases s.len(),
{
    if s.len() > 0 && is_space(s[0]) {
        trim_start_spec(s.drop_first())
    } else {
        s
    }
}

/// The new accumulated input after one more physical line: the line is
/// trimmed on both sides and appended, with a single space between the parts
/// unless the accumulated input is empty, already ends with a pipe, or the
/// new part starts with one.
pub open spec fn joined(acc: Seq<u8>, part: Seq<u8>) -> Seq<u8> {
    let pt = trim_start_spec(trim_end_spec(part));
    if acc.len() == 0 {
        pt
    } else if trim_end_spec(acc).len() > 0 && trim_end_spec(acc).last() == 124 {
        acc + pt
    } else if pt.len() > 0 && pt[0] == 124 {
        acc + pt
    } else {
        acc + seq![32u8] + pt
    }
}

/// What [`append_line`] returns: the new accumulated input, and whether a
/// further line is still owed.  A pending continuation loses exactly its
/// marker backslash before joining.
pub open spec fn line_step(acc: Seq<u8>, line: Seq<u8>) -> (Seq<u8>, bool) {
    if continuation_pending(line) {
        (joined(acc, line.drop_last()), true)
    } else {
        (joined(acc, line), false)
    }
}

/// The length of the trailing backslash run, executably.
fn count_trailing_backslashes(line: &Vec<u8>) -> (r: usize)
    ensures
        r as int == trailing_backslashes(line@),
{
    let mut k: usize = 0;
    proof {
        assert(line@.take(line@.len() as int) =~= line@);
    }
    while k < line.len() && line[line.len() - 1 - k] == 92
        invariant
            k <= line.len(),
            trailing_backslashes(line@) == k + trailing_backslashes(
                line@.take(line@.len() - k),
            ),
        decreases line.len() - k,
    {
        proof {
            let t = line@.take(line@.len() - k);
            assert(t.last() == line@[line@.len() - 1 - k]);
            assert(t.drop_last() =~= line@.take(line@.len() - (k + 1)));
        }
        k += 1;
    }
    proof {
        let t = line@.take(line@.len() - k);
        if k < line@.len() {
            assert(t.last() == line@[line@.len() - 1 - k]);
        }
        assert(trailing_backslashes(t) == 0);
    }
    k
}

/// Whether `b` is trimmable whitespace.  See [`is_space`].
fn space_byte(b: u8) -> (r: bool)
    ensures
        r == is_space(b),
{
    b == 32 || b == 9 || b == 10
}

/// The length of the line once trailing whitespace up to `upto` is dropped.
fn trim_end_index(line: &Vec<u8>, upto: usize) -> (r: usize)
    requires
        upto <= line.len(),
    ensures
        r <= upto,
        line@.take(r as int) == trim_end_spec(line@.take(upto as int)),
{
    let mut e: usize = upto;
    while e > 0 && space_byte(line[e - 1])
        invariant
            e <= upto <= line@.len(),
            trim_end_spec(line@.take(upto as int)) == trim_end_spec(line@.take(e as int)),
        decreases e,
    {
        proof {
            let t = line@.take(e as int);
            assert(t.last() == line@[e - 1]);
            assert(t.drop_last() =~= line@.take(e - 1));
        }
        e -= 1;
    }
    proof {
        let t = line@.take(e as int);
        if e > 0 {
            assert(t.last() == line@[e - 1]);
        }
        assert(trim_end_spec(t) == t);
    }
    e
}

/// The first index past the leading whitespace, up to `upto`.
fn trim_start_index(line: &Vec<u8>, upto: usize) -> (r: usize)
    requires
        upto <= line.len(),
    ensures
        r <= upto,
        line@.subrange(r as int, upto as int) == trim_start_spec(line@.take(upto as int)),
{
    let mut st: usize = 0;
    proof {
        assert(line@.subrange(0, upto as int) =~= line@.take(upto as int));
    }
    while st < upto && space_byte(line[st])
        invariant
            st <= upto <= line@.len(),
            trim_start_spec(line@.take(upto as int)) == trim_start_spec(
                line@.subrange(st as int, upto as int),
            ),
        decreases upto - st,
    {
        proof {
            let t = line@.subrange(st as int, upto as int);
            assert(t[0] == line@[st as int]);
            assert(t.drop_first() =~= line@.subrange(st as int + 1, upto as int));
        }
        st += 1;
    }
    proof {
        let t = line@.subrange(st as int, upto as int);
        if st < upto {
            assert(t[0] == line@[st as int]);
        }
        assert(trim_start_spec(t) == t);
    }
    st
}

/// Appends bytes `from..to` of `src` to `dst`.
fn push_subrange(dst: &mut Vec<u8>, src: &Vec<u8>, from: usize, to: usize)
    requires
        from <= to <= src.len(),
    ensures
        final(dst)@ == old(dst)@ + src@.subrange(from as int, to as int),
{
    let mut i: usize = from;
    while i < to
        invariant
            from <= i <= to <= src.len(),
            dst@ == old(dst)@ + src@.subrange(from as int, i as int),
        decreases to - i,
    {
        dst.push(src[i]);
        proof {
            assert(old(dst)@ + src@.subrange(from as int, i as int + 1) =~= (old(dst)@
                + src@.subrange(from as int, i as int)).push(src@[i as int]));
        }
        i += 1;
    }
}

/// Folds one physical line into the accumulated logical line.  The second
/// component says whether the line ended in an unescaped backslash, so the
/// driver must read one more line before handing the whole to the lexer.
pub fn append_line(acc: Vec<u8>, line: &Vec<u8>) -> (r: (Vec<u8>, bool))
    ensures
        r.0@ == line_step(acc@, line@).0,
        r.1 == line_step(acc@, line@).1,
{
    let bs = count_trailing_backslashes(line);
    let cont = bs % 2 == 1;
    let body_len = if cont {
        line.len() - 1
    } else {
        line.len()
    };
    let ghost body = if cont {
        line@.drop_last()
    } else {
        line@
    };
    proof {
        if cont {
            assert(trailing_backslashes(line@) >= 1);
            assert(line@.len() >= 1);
            assert(line@.take(body_len as int) =~= body);
        } else {
            assert(line@.take(body_len as int) =~= body);
        }
    }
    let e = trim_end_index(line, body_len);
    let st = trim_start_index(line, e);
    proof {
        assert(line@.take(e as int) =~= line@.take(e as int));
        assert(trim_start_spec(trim_end_spec(body)) == line@.subrange(st as int, e as int));
    }
    if acc.len() == 0 {
        let mut out: Vec<u8> = Vec::new();
        push_subrange(&mut out, line, st, e);
        proof {
            assert(Seq::<u8>::empty() + line@.subrange(st as int, e as int) =~= line@.subrange(
                st as int,
                e as int,
            ));
        }
        (out, cont)
    } else {
        let ae = trim_end_index_whole(&acc);
        let pipe_acc = ae > 0 && acc[ae - 1] == 124;
        let pipe_part = st < e && line[st] == 124;
        proof {
            if ae > 0 {
                assert(trim_end_spec(acc@).last() == acc@[ae - 1]);
            }
            if st < e {
                assert(line@.subrange(st as int, e as int)[0] == line@[st as int]);
            }
        }
        let mut out = acc;
        if !(pipe_acc || pipe_part) {
            out.push(32);
        }
        push_subrange(&mut out, line, st, e);
        (out, cont)
    }
}

/// The length of `acc` once its trailing whitespace is dropped.
fn trim_end_index_whole(acc: &Vec<u8>) -> (r: usize)
    ensures
        r <= acc.len(),
        acc@.take(r as int) == trim_end_spec(acc@),
{
    let r = trim_end_index(acc, acc.len());
    proof {
        assert(acc@.take(acc@.len() as int) =~= acc@);
    }
    r
}

} // verus!
