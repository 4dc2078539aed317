//! Where standard input goes among the files, and the order in which inputs
//! and separators are written.
use vstd::prelude::*;

verus! {

/// A position beyond the last file means "after all files".
pub open spec fn normalize_position(p: usize, file_count: usize) -> usize {
    if p > file_count { file_count } else { p }
}

pub open spec fn strictly_increasing(s: Seq<usize>) -> bool {
    forall|i: int, j: int| 0 <= i < j < s.len() ==> s[i] < s[j]
}

/// The positions at which standard input is inserted: none when standard
/// input is not available or ignored; position 0 when none was requested;
/// otherwise each requested position once, those beyond the last file (and
/// `last`) meaning after all files, in increasing order.
pub open spec fn insert_positions_ok(
    result: Seq<usize>,
    stdin_available: bool,
    stdin_ignored: bool,
    requested: Seq<usize>,
    file_count: usize,
) -> bool {
    if !stdin_available || stdin_ignored {
        result == Seq::<usize>::empty()
    } else if requested.len() == 0 {
        result == seq![0usize]
    } else {
        &&& strictly_increasing(result)
        &&& forall|x: usize| result.contains(x) <==> exists|i: int| 0 <= i < requested.len()
                && #[trigger] normalize_position(requested[i], file_count) == x
    }
}

/// Inserts `x` into the strictly increasing `v` unless it is there already.
fn insert_sorted(v: &mut Vec<usize>, x: usize)
    requires
        strictly_increasing(old(v)@),
    ensures
        strictly_increasing(final(v)@),
        forall|y: usize| final(v)@.contains(y) <==> (old(v)@.contains(y) || y == x),
{
    let mut j: usize = 0;
    while j < v.len() && v[j] < x
        invariant
            j <= v@.len(),
            v@ == old(v)@,
            forall|k: int| 0 <= k < j ==> v@[k] < x,
        decreases v.len() - j,
    {
        j += 1;
    }
    if j < v.len() && v[j] == x {
        return;
    }
    let ghost before = v@;
    assert(before == old(v)@);
    v.insert(j, x);
    proof {
        lemma_insert_contains(before, j as int, x);
    }
}

proof fn lemma_insert_contains(s: Seq<usize>, j: int, x: usize)
    requires
        0 <= j <= s.len(),
    ensures
        forall|y: usize| #[trigger] s.insert(j, x).contains(y) <==> (s.contains(y) || y == x),
{
    let t = s.insert(j, x);
    assert forall|y: usize| #[trigger] t.contains(y) <==> (s.contains(y) || y == x) by {
        if t.contains(y) {
            let k = choose|k: int| 0 <= k < t.len() && t[k] == y;
            if k < j {
                assert(s[k] == y);
            } else if k > j {
                assert(s[k - 1] == y);
            }
        }
        if s.contains(y) {
            let k = choose|k: int| 0 <= k < s.len() && s[k] == y;
            if k < j {
                assert(t[k] == y);
            } else {
                assert(t[k + 1] == y);
            }
        }
        if y == x {
            assert(t[j] == x);
        }
    }
}

/// Where standard input is inserted among `file_count` files, given whether
/// it is available, whether it is ignored, and the requested positions.
pub fn stdin_insert_positions(
    stdin_available: bool,
    stdin_ignored: bool,
    requested: &Vec<usize>,
    file_count: usize,
) -> (positions: Vec<usize>)
    ensures
        insert_positions_ok(positions@, stdin_available, stdin_ignored, requested@, file_count),
{
    let mut positions: Vec<usize> = Vec::new();
    if stdin_available && !stdin_ignored {
        if requested.len() == 0 {
            positions.push(0);
            assert(positions@ =~= seq![0usize]);
        } else {
            let mut i: usize = 0;
            while i < requested.len()
                invariant
                    i <= requested@.len(),
                    strictly_increasing(positions@),
                    forall|x: usize| positions@.contains(x) <==> exists|k: int| 0 <= k < i
                        && #[trigger] normalize_position(requested@[k], file_count) == x,
                decreases requested.len() - i,
            {
                let position = requested[i];
                let normalized = if position == usize::MAX || position > file_count {
                    file_count
                } else {
                    position
                };
                assert(normalized == normalize_position(requested@[i as int], file_count));
                let ghost before = positions@;
                insert_sorted(&mut positions, normalized);
                i += 1;
                assert forall|x: usize| positions@.contains(x) <==> exists|k: int| 0 <= k < i
                    && #[trigger] normalize_position(requested@[k], file_count) == x by {
                    if positions@.contains(x) && x != normalized {
                        assert(before.contains(x));
                    }
                    if exists|k: int| 0 <= k < i && #[trigger] normalize_position(requested@[k], file_count) == x {
                        let k = choose|k: int| 0 <= k < i && #[trigger] normalize_position(requested@[k], file_count) == x;
                        if k < i - 1 {
                            assert(before.contains(x));
                        }
                    }
                }
            }
        }
    } else {
        assert(positions@ =~= Seq::<usize>::empty());
    }
    positions
}

/// One piece of the output.
#[derive(Clone, Copy, PartialEq, Eq, Structural, Debug)]
pub enum Segment {
    /// The separator, written before the file with this index, or before
    /// standard input (`None`).
    Separator(Option<usize>),
    /// The content read from standard input.
    Stdin,
    /// The content of the file with this index.
    File(usize),
}

/// The inputs at positions `0..k`, in order: at each position, standard input
/// first (where it is inserted there), then the file of that index, if any.
pub open spec fn inputs_upto(k: nat, file_count: nat, stdin_positions: Seq<usize>) -> Seq<Segment>
    decreases k,
{
    if k == 0 {
        Seq::empty()
    } else {
        let p = (k - 1) as nat;
        inputs_upto(p, file_count, stdin_positions)
            + (if stdin_positions.contains(p as usize) { seq![Segment::Stdin] } else { Seq::empty() })
            + (if p < file_count { seq![Segment::File(p as usize)] } else { Seq::empty() })
    }
}

/// All inputs, in the order they are written.
pub open spec fn inputs(file_count: nat, stdin_positions: Seq<usize>) -> Seq<Segment> {
    inputs_upto(file_count + 1, file_count, stdin_positions)
}

/// The separator written before the input `next`.
pub open spec fn separator_before(next: Segment) -> Segment {
    match next {
        Segment::File(i) => Segment::Separator(Some(i)),
        _ => Segment::Separator(None),
    }
}

/// `s` with a separator between each two neighbours.
pub open spec fn interleave(s: Seq<Segment>) -> Seq<Segment>
    decreases s.len(),
{
    if s.len() <= 1 {
        s
    } else {
        interleave(s.drop_last()).push(separator_before(s.last())).push(s.last())
    }
}

fn contains(s: &[usize], x: usize) -> (r: bool)
    ensures
        r == s@.contains(x),
{
    let mut i: usize = 0;
    while i < s.len()
        invariant
            i <= s@.len(),
            forall|k: int| 0 <= k < i ==> s@[k] != x,
        decreases s.len() - i,
    {
        if s[i] == x {
            return true;
        }
        i += 1;
    }
    false
}

fn push_value(plan: &mut Vec<Segment>, value: Segment, Ghost(values): Ghost<Seq<Segment>>)
    requires
        old(plan)@ == interleave(values),
    ensures
        final(plan)@ == interleave(values.push(value)),
{
    assert(values.push(value).drop_last() =~= values);
    if plan.len() > 0 {
        let sep = match value {
            Segment::File(i) => Segment::Separator(Some(i)),
            _ => Segment::Separator(None),
        };
        plan.push(sep);
    } else {
        proof {
            lemma_interleave_empty(values);
        }
    }
    plan.push(value);
    proof {
        if values.len() == 0 {
            assert(plan@ =~= values.push(value));
        }
    }
}

proof fn lemma_interleave_empty(s: Seq<Segment>)
    ensures
        interleave(s).len() == 0 <==> s.len() == 0,
    decreases s.len(),
{
    if s.len() > 1 {
        lemma_interleave_empty(s.drop_last());
    }
}

/// The order in which the output is written for `file_count` files with
/// standard input inserted at `stdin_positions`: every input in turn, with
/// the separator between each two of them.
pub fn concat_plan(file_count: usize, stdin_positions: &[usize]) -> (plan: Vec<Segment>)
    ensures
        plan@ == interleave(inputs(file_count as nat, stdin_positions@)),
{
    let mut plan: Vec<Segment> = Vec::new();
    let mut position: usize = 0;
    let mut more = true;
    while more
        invariant
            position <= file_count,
            more ==> plan@ == interleave(inputs_upto(position as nat, file_count as nat, stdin_positions@)),
            !more ==> plan@ == interleave(inputs(file_count as nat, stdin_positions@)),
        decreases file_count - position + if more { 1int } else { 0int },
    {
        let ghost before = inputs_upto(position as nat, file_count as nat, stdin_positions@);
        let ghost with_stdin = before + (if stdin_positions@.contains(position) { seq![Segment::Stdin] } else { Seq::empty() });
        if contains(stdin_positions, position) {
            push_value(&mut plan, Segment::Stdin, Ghost(before));
            assert(before.push(Segment::Stdin) =~= with_stdin);
        } else {
            assert(before =~= with_stdin);
        }
        if position < file_count {
            push_value(&mut plan, Segment::File(position), Ghost(with_stdin));
            assert(with_stdin.push(Segment::File(position)) =~= inputs_upto((position + 1) as nat, file_count as nat, stdin_positions@));
        } else {
            assert(with_stdin =~= inputs_upto((position + 1) as nat, file_count as nat, stdin_positions@));
        }
        if position == file_count {
            more = false;
        } else {
            position += 1;
        }
    }
    plan
}

/// The separator stands exactly between each two neighbouring inputs (never
/// before the first, never after the last, never twice in a row), and each
/// separator names the input that follows it.
pub proof fn lemma_interleave_shape(s: Seq<Segment>)
    ensures
        interleave(s).len() == if s.len() == 0 { 0 } else { 2 * s.len() - 1 },
        forall|i: int| 0 <= i < s.len() ==> #[trigger] interleave(s)[2 * i] == s[i],
        forall|i: int| 0 <= i < s.len() - 1 ==> #[trigger] interleave(s)[2 * i + 1] == separator_before(s[i + 1]),
    decreases s.len(),
{
    if s.len() > 1 {
        let t = s.drop_last();
        lemma_interleave_shape(t);
        let r = interleave(s);
        assert forall|i: int| 0 <= i < s.len() implies #[trigger] r[2 * i] == s[i] by {
            if i < s.len() - 1 {
                assert(r[2 * i] == interleave(t)[2 * i]);
            }
        }
        assert forall|i: int| 0 <= i < s.len() - 1 implies #[trigger] r[2 * i + 1] == separator_before(s[i + 1]) by {
            if i < s.len() - 2 {
                assert(r[2 * i + 1] == interleave(t)[2 * i + 1]);
            }
        }
    }
}

/// The file indices among `s`, in order.
pub open spec fn file_indices(s: Seq<Segment>) -> Seq<usize>
    decreases s.len(),
{
    if s.len() == 0 {
        Seq::empty()
    } else {
        let rest = file_indices(s.drop_last());
        match s.last() {
            Segment::File(i) => rest.push(i),
            _ => rest,
        }
    }
}

proof fn lemma_file_indices_append(a: Seq<Segment>, b: Seq<Segment>)
    ensures
        file_indices(a + b) == file_indices(a) + file_indices(b),
    decreases b.len(),
{
    if b.len() == 0 {
        assert(a + b =~= a);
        assert(file_indices(a) + file_indices(b) =~= file_indices(a));
    } else {
        assert((a + b).drop_last() =~= a + b.drop_last());
        lemma_file_indices_append(a, b.drop_last());
        match b.last() {
            Segment::File(i) => {
                assert(file_indices(a) + file_indices(b.drop_last()).push(i) =~= (file_indices(a) + file_indices(b.drop_last())).push(i));
            },
            _ => {},
        }
    }
}

proof fn lemma_file_indices_upto(k: nat, file_count: nat, stdin_positions: Seq<usize>)
    requires
        k <= file_count + 1,
        file_count <= usize::MAX,
    ensures
        file_indices(inputs_upto(k, file_count, stdin_positions))
            == Seq::new(if k <= file_count { k } else { file_count }, |i: int| i as usize),
    decreases k,
{
    if k > 0 {
        let p = (k - 1) as nat;
        lemma_file_indices_upto(p, file_count, stdin_positions);
        let a = inputs_upto(p, file_count, stdin_positions);
        let b = if stdin_positions.contains(p as usize) { seq![Segment::Stdin] } else { Seq::empty() };
        let c = if p < file_count { seq![Segment::File(p as usize)] } else { Seq::empty() };
        lemma_file_indices_append(a + b, c);
        lemma_file_indices_append(a, b);
        assert(file_indices(Seq::<Segment>::empty()) =~= Seq::<usize>::empty());
        assert(file_indices(b) =~= Seq::<usize>::empty()) by {
            if stdin_positions.contains(p as usize) {
                assert(b.drop_last() =~= Seq::<Segment>::empty());
            }
        }
        if p < file_count {
            assert(c.drop_last() =~= Seq::<Segment>::empty());
            assert(file_indices(c) =~= seq![p as usize]);
        } else {
            assert(file_indices(c) =~= Seq::<usize>::empty());
        }
        assert(inputs_upto(k, file_count, stdin_positions) == a + b + c);
        assert(file_indices(inputs_upto(k, file_count, stdin_positions))
            =~= Seq::new(if k <= file_count { k } else { file_count }, |i: int| i as usize));
    } else {
        assert(inputs_upto(0, file_count, stdin_positions) =~= Seq::<Segment>::empty());
    }
}

/// Every file is written exactly once, in the order given, wherever
/// standard input is inserted.
pub proof fn lemma_files_in_order(file_count: usize, stdin_positions: Seq<usize>)
    ensures
        file_indices(inputs(file_count as nat, stdin_positions))
            == Seq::new(file_count as nat, |i: int| i as usize),
{
    lemma_file_indices_upto((file_count + 1) as nat, file_count as nat, stdin_positions);
}

/// How often standard input occurs among `s`.
pub open spec fn stdin_count(s: Seq<Segment>) -> nat
    decreases s.len(),
{
    if s.len() == 0 {
        0
    } else {
        stdin_count(s.drop_last()) + if s.last() == Segment::Stdin { 1nat } else { 0nat }
    }
}

/// How many of `positions` lie below `k`.
pub open spec fn count_below(positions: Seq<usize>, k: int) -> nat
    decreases positions.len(),
{
    if positions.len() == 0 {
        0
    } else {
        count_below(positions.drop_last(), k) + if positions.last() < k { 1nat } else { 0nat }
    }
}

proof fn lemma_stdin_count_append(a: Seq<Segment>, b: Seq<Segment>)
    ensures
        stdin_count(a + b) == stdin_count(a) + stdin_count(b),
    decreases b.len(),
{
    if b.len() == 0 {
        assert(a + b =~= a);
    } else {
        assert((a + b).drop_last() =~= a + b.drop_last());
        lemma_stdin_count_append(a, b.drop_last());
    }
}

proof fn lemma_count_below_step(positions: Seq<usize>, k: int)
    requires
        strictly_increasing(positions),
        0 <= k <= usize::MAX,
    ensures
        count_below(positions, k + 1) == count_below(positions, k) + if positions.contains(k as usize) { 1nat } else { 0nat },
    decreases positions.len(),
{
    if positions.len() > 0 {
        let t = positions.drop_last();
        assert(strictly_increasing(t));
        lemma_count_below_step(t, k);
        if positions.contains(k as usize) {
            let i = choose|i: int| 0 <= i < positions.len() && positions[i] == k as usize;
            if i < positions.len() - 1 {
                assert(t[i] == positions[i]);
                assert(t.contains(k as usize));
                assert(positions[i] < positions.last());
            } else {
                if t.contains(k as usize) {
                    let j = choose|j: int| 0 <= j < t.len() && t[j] == k as usize;
                    assert(positions[j] < positions[i]);
                }
            }
        } else {
            if t.contains(k as usize) {
                let j = choose|j: int| 0 <= j < t.len() && t[j] == k as usize;
                assert(positions[j] == k as usize);
            }
        }
    }
}

proof fn lemma_count_below_all(positions: Seq<usize>, k: int)
    requires
        forall|i: int| 0 <= i < positions.len() ==> positions[i] < k,
    ensures
        count_below(positions, k) == positions.len(),
    decreases positions.len(),
{
    if positions.len() > 0 {
        lemma_count_below_all(positions.drop_last(), k);
    }
}

proof fn lemma_stdin_count_upto(k: nat, file_count: nat, stdin_positions: Seq<usize>)
    requires
        strictly_increasing(stdin_positions),
        k <= file_count + 1,
        file_count <= usize::MAX,
    ensures
        stdin_count(inputs_upto(k, file_count, stdin_positions)) == count_below(stdin_positions, k as int),
    decreases k,
{
    if k > 0 {
        let p = (k - 1) as nat;
        lemma_stdin_count_upto(p, file_count, stdin_positions);
        let a = inputs_upto(p, file_count, stdin_positions);
        let b = if stdin_positions.contains(p as usize) { seq![Segment::Stdin] } else { Seq::empty() };
        let c = if p < file_count { seq![Segment::File(p as usize)] } else { Seq::empty() };
        lemma_stdin_count_append(a + b, c);
        lemma_stdin_count_append(a, b);
        assert(stdin_count(Seq::<Segment>::empty()) == 0);
        if stdin_positions.contains(p as usize) {
            assert(b.drop_last() =~= Seq::<Segment>::empty());
        }
        if p < file_count {
            assert(c.drop_last() =~= Seq::<Segment>::empty());
        }
        assert(inputs_upto(k, file_count, stdin_positions) == a + b + c);
        lemma_count_below_step(stdin_positions, p as int);
    } else {
        lemma_count_below_zero(stdin_positions);
    }
}

proof fn lemma_count_below_zero(positions: Seq<usize>)
    ensures
        count_below(positions, 0) == 0,
    decreases positions.len(),
{
    if positions.len() > 0 {
        lemma_count_below_zero(positions.drop_last());
    }
}

/// Standard input is written once at each of its insert positions: with
/// strictly increasing positions, none beyond the last file, it occurs as
/// often among the inputs as there are positions.
pub proof fn lemma_stdin_once_per_position(file_count: usize, stdin_positions: Seq<usize>)
    requires
        strictly_increasing(stdin_positions),
        forall|i: int| 0 <= i < stdin_positions.len() ==> stdin_positions[i] <= file_count,
    ensures
        stdin_count(inputs(file_count as nat, stdin_positions)) == stdin_positions.len(),
{
    lemma_stdin_count_upto((file_count + 1) as nat, file_count as nat, stdin_positions);
    lemma_count_below_all(stdin_positions, file_count + 1);
}

/// Where the output goes.
pub enum OutputTarget {
    /// Standard output.
    Stdout,
    /// A new file named after the current time.
    Timestamped,
    /// The file at this path.
    Path(String),
}

/// Where the output goes for the `--out` setting `output`: standard output
/// without one, a timestamped file for an empty path, else the path given.
pub fn output_target(output: &Option<String>) -> (t: OutputTarget)
    ensures
        match output {
            None => t is Stdout,
            Some(p) => if p@.len() == 0 {
                t is Timestamped
            } else {
                t matches OutputTarget::Path(q) && q@ == p@
            },
        },
{
    match output {
        None => OutputTarget::Stdout,
        Some(path) => {
            if path.as_str().is_empty() {
                OutputTarget::Timestamped
            } else {
                OutputTarget::Path(path.clone())
            }
        },
    }
}

} // verus!
