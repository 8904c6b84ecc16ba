use vstd::prelude::*;

verus! {

/// From `out`, with `opc` parentheses open, open (`+(1`) or close (`+1)`)
/// groups one at a time until `lev` are open.
pub open spec fn climb(out: Seq<char>, opc: int, lev: int) -> Seq<char>
    decreases (if lev > opc { lev - opc } else { opc - lev }),
{
    if lev > opc {
        climb(out + seq!['+', '(', '1'], opc + 1, lev)
    } else if lev < opc {
        climb(out + seq!['+', '1', ')'], opc - 1, lev)
    } else {
        out
    }
}

/// How many parentheses are open after the levels of `levels`.
pub open spec fn open_count(levels: Seq<usize>) -> int {
    if levels.len() == 0 { 0 } else { levels.last() as int }
}

/// The expression built from `1` by moving to each nesting level in turn.
pub open spec fn balanced_spec(levels: Seq<usize>) -> Seq<char>
    decreases levels.len(),
{
    if levels.len() == 0 {
        seq!['1']
    } else {
        climb(balanced_spec(levels.drop_last()), open_count(levels.drop_last()), levels.last() as int)
    }
}

/// Builds a sum of ones whose parenthesis nesting visits each of `levels` in
/// order, starting from depth zero.
pub fn balanced_string(levels: &Vec<usize>) -> (r: Vec<char>)
    ensures
        r@ == balanced_spec(levels@),
{
    let mut out: Vec<char> = vec!['1'];
    let mut opc: usize = 0;
    let mut i: usize = 0;
    proof {
        assert(levels@.take(0) =~= Seq::<usize>::empty());
        assert(out@ =~= seq!['1']);
    }
    while i < levels.len()
        invariant
            i <= levels.len(),
            out@ == balanced_spec(levels@.take(i as int)),
            opc as int == open_count(levels@.take(i as int)),
        decreases levels.len() - i,
    {
        let lev = levels[i];
        let ghost base = out@;
        let ghost opc0 = opc as int;
        while lev != opc
            invariant
                climb(out@, opc as int, lev as int) == climb(base, opc0, lev as int),
            decreases (if lev > opc { lev - opc } else { opc - lev }),
        {
            let ghost before = out@;
            if lev > opc {
                out.push('+');
                out.push('(');
                out.push('1');
                opc = opc + 1;
                assert(out@ =~= before + seq!['+', '(', '1']);
            } else {
                out.push('+');
                out.push('1');
                out.push(')');
                opc = opc - 1;
                assert(out@ =~= before + seq!['+', '1', ')']);
            }
        }
        proof {
            assert(levels@.take(i + 1).drop_last() =~= levels@.take(i as int));
            assert(levels@.take(i + 1).last() == lev);
        }
        i = i + 1;
    }
    proof {
        assert(levels@.take(i as int) =~= levels@);
    }
    out
}

} // verus!
