use vstd::prelude::*;

verus! {

/// The phase a system runs in. Preprocessors run first every loop
/// iteration, logic systems run under the fixed-step gate, postprocessors
/// run last.
#[derive(Clone, Copy, PartialEq, Eq, Structural, Debug)]
pub enum SystemType {
    Preprocessor,
    Logic,
    Postprocessor,
}

/// A soft run-order hint: `Before(x)` asks that the named system be placed
/// in a strictly later layer, `After(x)` that this system be placed in a
/// strictly later layer than the named one. Hints never reject a
/// registration; an unsatisfiable set of them is reported when the
/// pipeline is built.
pub enum RunOrder {
    Before(String),
    After(String),
}

impl RunOrder {
    /// The spec-level name carried by a hint.
    pub open spec fn spec_value(&self) -> Seq<char> {
        match self {
            RunOrder::Before(v) => v@,
            RunOrder::After(v) => v@,
        }
    }

    /// The system name this hint refers to, whichever direction it points.
    pub fn value(&self) -> (r: &str)
        ensures
            r@ == self.spec_value(),
    {
        match self {
            RunOrder::Before(v) => v.as_str(),
            RunOrder::After(v) => v.as_str(),
        }
    }
}

/// Whether `h` is `Before(name)`.
pub open spec fn is_before(h: RunOrder, name: Seq<char>) -> bool {
    match h {
        RunOrder::Before(v) => v@ == name,
        RunOrder::After(_) => false,
    }
}

/// Whether `h` is `After(name)`.
pub open spec fn is_after(h: RunOrder, name: Seq<char>) -> bool {
    match h {
        RunOrder::Before(_) => false,
        RunOrder::After(v) => v@ == name,
    }
}

/// One system's scheduling-relevant data: its id and its ordering hints.
pub struct SysHints {
    pub id: String,
    pub hints: Vec<RunOrder>,
}

/// The id of entry `x`.
pub open spec fn id_of(entries: Seq<SysHints>, x: int) -> Seq<char> {
    entries[x].id@
}

/// Entry `x` declares `Before` the id of entry `y`.
pub open spec fn wants_before(entries: Seq<SysHints>, x: int, y: int) -> bool {
    exists|k: int|
        0 <= k < entries[x].hints@.len() && is_before(
            #[trigger] entries[x].hints@[k],
            id_of(entries, y),
        )
}

/// Entry `y` declares `After` the id of entry `x`.
pub open spec fn wants_after(entries: Seq<SysHints>, x: int, y: int) -> bool {
    exists|k: int|
        0 <= k < entries[y].hints@.len() && is_after(
            #[trigger] entries[y].hints@[k],
            id_of(entries, x),
        )
}

/// The hint graph requires `x` to be layered strictly before `y`.
pub open spec fn must_precede(entries: Seq<SysHints>, x: int, y: int) -> bool {
    wants_before(entries, x, y) || wants_after(entries, x, y)
}

/// All entry ids are distinct.
pub open spec fn distinct_ids(entries: Seq<SysHints>) -> bool {
    forall|i: int, j: int|
        0 <= i < entries.len() && 0 <= j < entries.len() && i != j ==> id_of(entries, i)
            != id_of(entries, j)
}

/// Some member of the layer `cur` (a sequence of entry indices) carries
/// the id `name`.
pub open spec fn layer_has_id(entries: Seq<SysHints>, cur: Seq<usize>, name: Seq<char>) -> bool {
    exists|j: int| 0 <= j < cur.len() && id_of(entries, #[trigger] cur[j] as int) == name
}

/// Whether the hint `h` is an `After` whose target sits in the layer.
pub open spec fn after_present(entries: Seq<SysHints>, cur: Seq<usize>, h: RunOrder) -> bool {
    match h {
        RunOrder::Before(_) => false,
        RunOrder::After(v) => layer_has_id(entries, cur, v@),
    }
}

/// Whether the member `s` of the layer `cur` is marked for a shift to the
/// next layer: some member of the layer declares `Before(s)`, or `s`
/// itself declares `After` a member of the layer.
pub open spec fn spec_marked(entries: Seq<SysHints>, cur: Seq<usize>, s: usize) -> bool {
    ||| exists|j: int|
        0 <= j < cur.len() && wants_before(entries, #[trigger] cur[j] as int, s as int)
    ||| exists|k: int|
        0 <= k < entries[s as int].hints@.len() && after_present(
            entries,
            cur,
            #[trigger] entries[s as int].hints@[k],
        )
}

/// The members of `cur` from position `i` on that are not marked, in order.
pub open spec fn spec_stay(entries: Seq<SysHints>, cur: Seq<usize>, i: int) -> Seq<usize>
    decreases cur.len() - i,
{
    if i < 0 || i >= cur.len() {
        Seq::empty()
    } else if spec_marked(entries, cur, cur[i]) {
        spec_stay(entries, cur, i + 1)
    } else {
        seq![cur[i]] + spec_stay(entries, cur, i + 1)
    }
}

/// The members of `cur` from position `i` on that are marked, in order.
pub open spec fn spec_shift(entries: Seq<SysHints>, cur: Seq<usize>, i: int) -> Seq<usize>
    decreases cur.len() - i,
{
    if i < 0 || i >= cur.len() {
        Seq::empty()
    } else if spec_marked(entries, cur, cur[i]) {
        seq![cur[i]] + spec_shift(entries, cur, i + 1)
    } else {
        spec_shift(entries, cur, i + 1)
    }
}

/// Splitting a layer into staying and shifted members loses nobody.
pub proof fn lemma_split_partition(entries: Seq<SysHints>, cur: Seq<usize>, i: int)
    requires
        0 <= i <= cur.len(),
    ensures
        spec_stay(entries, cur, i).len() + spec_shift(entries, cur, i).len() == cur.len() - i,
    decreases cur.len() - i,
{
    if i < cur.len() {
        lemma_split_partition(entries, cur, i + 1);
    }
}

/// Every member of the staying part comes from the layer and is unmarked;
/// every member of the shifted part comes from the layer and is marked.
pub proof fn lemma_split_members(entries: Seq<SysHints>, cur: Seq<usize>, i: int)
    requires
        0 <= i <= cur.len(),
    ensures
        forall|p: int|
            0 <= p < spec_stay(entries, cur, i).len() ==> {
                let s = #[trigger] spec_stay(entries, cur, i)[p];
                !spec_marked(entries, cur, s) && exists|j: int| i <= j < cur.len() && cur[j] == s
            },
        forall|p: int|
            0 <= p < spec_shift(entries, cur, i).len() ==> {
                let s = #[trigger] spec_shift(entries, cur, i)[p];
                spec_marked(entries, cur, s) && exists|j: int| i <= j < cur.len() && cur[j] == s
            },
    decreases cur.len() - i,
{
    if i < cur.len() {
        lemma_split_members(entries, cur, i + 1);
        assert forall|p: int| 0 <= p < spec_stay(entries, cur, i).len() implies {
            let s = #[trigger] spec_stay(entries, cur, i)[p];
            !spec_marked(entries, cur, s) && exists|j: int| i <= j < cur.len() && cur[j] == s
        } by {
            if !spec_marked(entries, cur, cur[i]) {
                if p == 0 {
                    assert(spec_stay(entries, cur, i)[0] == cur[i]);
                } else {
                    assert(spec_stay(entries, cur, i)[p] == spec_stay(entries, cur, i + 1)[p - 1]);
                }
            } else {
                assert(spec_stay(entries, cur, i)[p] == spec_stay(entries, cur, i + 1)[p]);
            }
        }
        assert forall|p: int| 0 <= p < spec_shift(entries, cur, i).len() implies {
            let s = #[trigger] spec_shift(entries, cur, i)[p];
            spec_marked(entries, cur, s) && exists|j: int| i <= j < cur.len() && cur[j] == s
        } by {
            if spec_marked(entries, cur, cur[i]) {
                if p == 0 {
                    assert(spec_shift(entries, cur, i)[0] == cur[i]);
                } else {
                    assert(spec_shift(entries, cur, i)[p] == spec_shift(entries, cur, i + 1)[p - 1]);
                }
            } else {
                assert(spec_shift(entries, cur, i)[p] == spec_shift(entries, cur, i + 1)[p]);
            }
        }
    }
}

/// The sequence `0, 1, ..., n - 1`: every system starts in layer zero.
pub open spec fn all_indices(n: nat) -> Seq<usize> {
    Seq::new(n, |i: int| i as usize)
}

/// The layer-shifting algorithm as a function of the hint graph: split the
/// current layer into staying and marked members; if nobody is marked the
/// layer is stable and layering ends, if everybody is marked the layer is
/// an unsatisfiable circular constraint set, otherwise the marked members
/// form the next layer and the split repeats on them.
pub open spec fn spec_layering(entries: Seq<SysHints>, cur: Seq<usize>) -> Result<
    Seq<Seq<usize>>,
    Seq<usize>,
>
    decreases cur.len(),
{
    if cur.len() == 0 {
        Result::Ok(seq![cur])
    } else {
        let stay = spec_stay(entries, cur, 0);
        let shift = spec_shift(entries, cur, 0);
        if shift.len() == 0 {
            Result::Ok(seq![cur])
        } else if stay.len() == 0 {
            Result::Err(cur)
        } else {
            proof {
                lemma_split_partition(entries, cur, 0);
            }
            match spec_layering(entries, shift) {
                Result::Ok(rest) => Result::Ok(seq![stay] + rest),
                Result::Err(e) => Result::Err(e),
            }
        }
    }
}

/// A member of a layer that every other member must precede is marked, so
/// an unmarked member has no unresolved conflict with the rest of its
/// layer. Stated the useful way round: if `x` sits anywhere in `cur` and
/// must precede `y`, then `y` is marked.
pub proof fn lemma_conflicted_is_marked(entries: Seq<SysHints>, cur: Seq<usize>, j: int, y: usize)
    requires
        0 <= j < cur.len(),
        must_precede(entries, cur[j] as int, y as int),
    ensures
        spec_marked(entries, cur, y),
{
    if wants_before(entries, cur[j] as int, y as int) {
    } else {
        assert(wants_after(entries, cur[j] as int, y as int));
        let k = choose|k: int|
            0 <= k < entries[y as int].hints@.len() && is_after(
                #[trigger] entries[y as int].hints@[k],
                id_of(entries, cur[j] as int),
            );
        assert(layer_has_id(entries, cur, entries[y as int].hints@[k]->After_0@));
    }
}

/// Every member of a layer produced by successful layering comes from the
/// starting set.
pub proof fn lemma_layering_member(entries: Seq<SysHints>, cur: Seq<usize>, l: int, p: int)
    requires
        spec_layering(entries, cur) is Ok,
        0 <= l < spec_layering(entries, cur)->Ok_0.len(),
        0 <= p < spec_layering(entries, cur)->Ok_0[l].len(),
    ensures
        exists|j: int| 0 <= j < cur.len() && cur[j] == spec_layering(entries, cur)->Ok_0[l][p],
    decreases cur.len(),
{
    let layers = spec_layering(entries, cur)->Ok_0;
    if cur.len() == 0 {
        assert(layers == seq![cur]);
    } else {
        let stay = spec_stay(entries, cur, 0);
        let shift = spec_shift(entries, cur, 0);
        if shift.len() == 0 {
            assert(layers == seq![cur]);
            assert(cur[p] == layers[0][p]);
        } else {
            lemma_split_partition(entries, cur, 0);
            lemma_split_members(entries, cur, 0);
            let rest = spec_layering(entries, shift)->Ok_0;
            assert(layers == seq![stay] + rest);
            if l == 0 {
                assert(layers[0] == stay);
            } else {
                assert(layers[l] == rest[l - 1]);
                lemma_layering_member(entries, shift, l - 1, p);
                let j = choose|j: int| 0 <= j < shift.len() && shift[j] == rest[l - 1][p];
            }
        }
    }
}

/// Every member of the starting set appears somewhere in the layers that
/// successful layering produces.
pub proof fn lemma_layering_covers(entries: Seq<SysHints>, cur: Seq<usize>, j: int)
    requires
        spec_layering(entries, cur) is Ok,
        0 <= j < cur.len(),
    ensures
        exists|l: int, p: int|
            0 <= l < spec_layering(entries, cur)->Ok_0.len() && 0 <= p < spec_layering(
                entries,
                cur,
            )->Ok_0[l].len() && #[trigger] spec_layering(entries, cur)->Ok_0[l][p] == cur[j],
    decreases cur.len(),
{
    let layers = spec_layering(entries, cur)->Ok_0;
    let stay = spec_stay(entries, cur, 0);
    let shift = spec_shift(entries, cur, 0);
    if shift.len() == 0 {
        assert(layers == seq![cur]);
        assert(layers[0][j] == cur[j]);
    } else {
        lemma_split_partition(entries, cur, 0);
        let rest = spec_layering(entries, shift)->Ok_0;
        assert(layers == seq![stay] + rest);
        if spec_marked(entries, cur, cur[j]) {
            lemma_shift_catches_marked(entries, cur, j);
            let q = choose|q: int| 0 <= q < shift.len() && shift[q] == cur[j];
            lemma_layering_covers(entries, shift, q);
            let (l2, p2): (int, int) = choose|l2: int, p2: int|
                0 <= l2 < rest.len() && 0 <= p2 < rest[l2].len() && rest[l2][p2] == shift[q];
            assert(layers[l2 + 1] == rest[l2]);
            assert(layers[l2 + 1][p2] == cur[j]);
        } else {
            lemma_stay_catches_unmarked(entries, cur, j);
            let q = choose|q: int| 0 <= q < stay.len() && stay[q] == cur[j];
            assert(layers[0] == stay);
            assert(layers[0][q] == cur[j]);
        }
    }
}

/// The heart of the scheduler's correctness: when layering succeeds and one
/// system must precede another, the first lands in a strictly earlier layer.
pub proof fn lemma_layering_ordered(
    entries: Seq<SysHints>,
    cur: Seq<usize>,
    lx: int,
    px: int,
    ly: int,
    py: int,
)
    requires
        spec_layering(entries, cur) is Ok,
        ({
            let layers = spec_layering(entries, cur)->Ok_0;
            &&& 0 <= lx < layers.len()
            &&& 0 <= px < layers[lx].len()
            &&& 0 <= ly < layers.len()
            &&& 0 <= py < layers[ly].len()
            &&& must_precede(entries, layers[lx][px] as int, layers[ly][py] as int)
        }),
    ensures
        lx < ly,
    decreases cur.len(),
{
    let layers = spec_layering(entries, cur)->Ok_0;
    if cur.len() == 0 {
        assert(layers == seq![cur]);
    } else {
        let stay = spec_stay(entries, cur, 0);
        let shift = spec_shift(entries, cur, 0);
        lemma_split_members(entries, cur, 0);
        if shift.len() == 0 {
            // the single stable layer: the constraint's target would have
            // been marked, and nothing is
            assert(layers == seq![cur]);
            lemma_conflicted_is_marked(entries, cur, px, cur[py]);
            lemma_shift_catches_marked(entries, cur, py);
            assert(false);
        } else {
            lemma_split_partition(entries, cur, 0);
            let rest = spec_layering(entries, shift)->Ok_0;
            assert(layers == seq![stay] + rest);
            if lx == 0 && ly == 0 {
                // both staying: the target would be marked, but staying
                // members are unmarked
                assert(layers[0] == stay);
                let x = stay[px];
                let y = stay[py];
                let jx = choose|j: int| 0 <= j < cur.len() && cur[j] == x;
                lemma_conflicted_is_marked(entries, cur, jx, y);
                assert(false);
            } else if lx == 0 {
                // x settled in the first layer, y shifted later
            } else if ly == 0 {
                // x still shifting while y settles: impossible, x's presence
                // in the layer marks y
                assert(layers[0] == stay);
                assert(layers[lx] == rest[lx - 1]);
                lemma_layering_member(entries, shift, lx - 1, px);
                let q = choose|q: int| 0 <= q < shift.len() && shift[q] == rest[lx - 1][px];
                let jx = choose|j: int| 0 <= j < cur.len() && cur[j] == shift[q];
                lemma_conflicted_is_marked(entries, cur, jx, stay[py]);
                assert(false);
            } else {
                assert(layers[lx] == rest[lx - 1]);
                assert(layers[ly] == rest[ly - 1]);
                lemma_layering_ordered(entries, shift, lx - 1, px, ly - 1, py);
            }
        }
    }
}

/// A marked member of the layer appears in the shifted part.
pub proof fn lemma_shift_catches_marked(entries: Seq<SysHints>, cur: Seq<usize>, j: int)
    requires
        0 <= j < cur.len(),
        spec_marked(entries, cur, cur[j]),
    ensures
        exists|p: int|
            0 <= p < spec_shift(entries, cur, 0).len() && spec_shift(entries, cur, 0)[p] == cur[j],
{
    lemma_shift_catches_marked_from(entries, cur, j, 0);
}

proof fn lemma_shift_catches_marked_from(entries: Seq<SysHints>, cur: Seq<usize>, j: int, i: int)
    requires
        0 <= i <= j < cur.len(),
        spec_marked(entries, cur, cur[j]),
    ensures
        exists|p: int|
            0 <= p < spec_shift(entries, cur, i).len() && spec_shift(entries, cur, i)[p] == cur[j],
    decreases cur.len() - i,
{
    if i == j {
        assert(spec_shift(entries, cur, i)[0] == cur[j]);
    } else {
        lemma_shift_catches_marked_from(entries, cur, j, i + 1);
        let p = choose|p: int|
            0 <= p < spec_shift(entries, cur, i + 1).len() && #[trigger] spec_shift(
                entries,
                cur,
                i + 1,
            )[p] == cur[j];
        if spec_marked(entries, cur, cur[i]) {
            assert(spec_shift(entries, cur, i)[p + 1] == cur[j]);
        } else {
            assert(spec_shift(entries, cur, i)[p] == cur[j]);
        }
    }
}

/// An unmarked member of the layer appears in the staying part.
pub proof fn lemma_stay_catches_unmarked(entries: Seq<SysHints>, cur: Seq<usize>, j: int)
    requires
        0 <= j < cur.len(),
        !spec_marked(entries, cur, cur[j]),
    ensures
        exists|p: int|
            0 <= p < spec_stay(entries, cur, 0).len() && spec_stay(entries, cur, 0)[p] == cur[j],
{
    lemma_stay_catches_unmarked_from(entries, cur, j, 0);
}

proof fn lemma_stay_catches_unmarked_from(entries: Seq<SysHints>, cur: Seq<usize>, j: int, i: int)
    requires
        0 <= i <= j < cur.len(),
        !spec_marked(entries, cur, cur[j]),
    ensures
        exists|p: int|
            0 <= p < spec_stay(entries, cur, i).len() && spec_stay(entries, cur, i)[p] == cur[j],
    decreases cur.len() - i,
{
    if i == j {
        assert(spec_stay(entries, cur, i)[0] == cur[j]);
    } else {
        lemma_stay_catches_unmarked_from(entries, cur, j, i + 1);
        let p = choose|p: int|
            0 <= p < spec_stay(entries, cur, i + 1).len() && #[trigger] spec_stay(
                entries,
                cur,
                i + 1,
            )[p] == cur[j];
        if spec_marked(entries, cur, cur[i]) {
            assert(spec_stay(entries, cur, i)[p] == cur[j]);
        } else {
            assert(spec_stay(entries, cur, i)[p + 1] == cur[j]);
        }
    }
}

/// Whether any member of the layer carries the id `name`.
fn layer_contains(entries: &Vec<SysHints>, cur: &Vec<usize>, name: &String) -> (b: bool)
    requires
        forall|p: int| 0 <= p < cur@.len() ==> (#[trigger] cur@[p] as int) < entries@.len(),
    ensures
        b == layer_has_id(entries@, cur@, name@),
{
    let mut j: usize = 0;
    while j < cur.len()
        invariant
            j <= cur@.len(),
            forall|p: int| 0 <= p < cur@.len() ==> (#[trigger] cur@[p] as int) < entries@.len(),
            forall|p: int| 0 <= p < j ==> id_of(entries@, #[trigger] cur@[p] as int) != name@,
        decreases cur@.len() - j,
    {
        if entries[cur[j]].id == *name {
            return true;
        }
        j = j + 1;
    }
    false
}

/// Whether any member of the layer declares `Before(name)`.
fn layer_wants_before(entries: &Vec<SysHints>, cur: &Vec<usize>, name: &String) -> (b: bool)
    requires
        forall|p: int| 0 <= p < cur@.len() ==> (#[trigger] cur@[p] as int) < entries@.len(),
    ensures
        b == exists|j: int, k: int|
            0 <= j < cur@.len() && 0 <= k < entries@[cur@[j] as int].hints@.len() && is_before(
                #[trigger] entries@[cur@[j] as int].hints@[k],
                name@,
            ),
{
    let mut j: usize = 0;
    while j < cur.len()
        invariant
            j <= cur@.len(),
            forall|p: int| 0 <= p < cur@.len() ==> (#[trigger] cur@[p] as int) < entries@.len(),
            forall|p: int, k: int|
                0 <= p < j && 0 <= k < entries@[cur@[p] as int].hints@.len() ==> !is_before(
                    #[trigger] entries@[cur@[p] as int].hints@[k],
                    name@,
                ),
        decreases cur@.len() - j,
    {
        let hints = &entries[cur[j]].hints;
        let mut k: usize = 0;
        while k < hints.len()
            invariant
                k <= hints@.len(),
                hints@ == entries@[cur@[j as int] as int].hints@,
                j < cur@.len(),
                forall|kk: int|
                    0 <= kk < k ==> !is_before(#[trigger] hints@[kk], name@),
            decreases hints@.len() - k,
        {
            match &hints[k] {
                RunOrder::Before(v) => {
                    if *v == *name {
                        return true;
                    }
                },
                RunOrder::After(_) => {},
            }
            k = k + 1;
        }
        j = j + 1;
    }
    false
}

/// Whether the member `s` of the layer is marked for a shift, exactly as
/// `spec_marked` says.
fn is_marked(entries: &Vec<SysHints>, cur: &Vec<usize>, s: usize) -> (b: bool)
    requires
        (s as int) < entries@.len(),
        forall|p: int| 0 <= p < cur@.len() ==> (#[trigger] cur@[p] as int) < entries@.len(),
    ensures
        b == spec_marked(entries@, cur@, s),
{
    if layer_wants_before(entries, cur, &entries[s].id) {
        assert(spec_marked(entries@, cur@, s)) by {
            let (j, k): (int, int) = choose|j: int, k: int|
                0 <= j < cur@.len() && 0 <= k < entries@[cur@[j] as int].hints@.len() && is_before(
                    #[trigger] entries@[cur@[j] as int].hints@[k],
                    entries@[s as int].id@,
                );
            assert(wants_before(entries@, cur@[j] as int, s as int));
        }
        return true;
    }
    let hints = &entries[s].hints;
    let mut k: usize = 0;
    while k < hints.len()
        invariant
            k <= hints@.len(),
            hints@ == entries@[s as int].hints@,
            (s as int) < entries@.len(),
            forall|p: int| 0 <= p < cur@.len() ==> (#[trigger] cur@[p] as int) < entries@.len(),
            forall|kk: int| 0 <= kk < k ==> !after_present(entries@, cur@, #[trigger] hints@[kk]),
        decreases hints@.len() - k,
    {
        match &hints[k] {
            RunOrder::After(v) => {
                if layer_contains(entries, cur, v) {
                    return true;
                }
            },
            RunOrder::Before(_) => {},
        }
        k = k + 1;
    }
    assert(!spec_marked(entries@, cur@, s)) by {
        if exists|j: int|
            0 <= j < cur@.len() && wants_before(entries@, #[trigger] cur@[j] as int, s as int) {
            let j = choose|j: int|
                0 <= j < cur@.len() && wants_before(entries@, #[trigger] cur@[j] as int, s as int);
            let kk = choose|kk: int|
                0 <= kk < entries@[cur@[j] as int].hints@.len() && is_before(
                    #[trigger] entries@[cur@[j] as int].hints@[kk],
                    id_of(entries@, s as int),
                );
            assert(false);
        }
    }
    false
}

/// Run the layer-shifting algorithm on the whole entry set. On success the
/// layers hold entry indices; on failure the indices of the layer whose
/// members all demanded a shift — a circular constraint set — come back.
fn layering(entries: &Vec<SysHints>) -> (r: Result<Vec<Vec<usize>>, Vec<usize>>)
    ensures
        ({
            let full = spec_layering(entries@, all_indices(entries@.len()));
            match r {
                Result::Ok(layers) => full is Ok && layers.deep_view() == full->Ok_0,
                Result::Err(e) => full is Err && e@ == full->Err_0,
            }
        }),
        ({
            match r {
                Result::Ok(layers) => forall|l: int, p: int|
                    0 <= l < layers.deep_view().len() && 0 <= p < layers.deep_view()[l].len()
                        ==> (#[trigger] layers.deep_view()[l][p] as int) < entries@.len(),
                Result::Err(e) => forall|p: int|
                    0 <= p < e@.len() ==> (#[trigger] e@[p] as int) < entries@.len(),
            }
        }),
{
    let ghost full = spec_layering(entries@, all_indices(entries@.len()));
    let n = entries.len();
    let mut cur: Vec<usize> = Vec::new();
    let mut i: usize = 0;
    while i < n
        invariant
            i <= n,
            n == entries@.len(),
            cur@.len() == i,
            forall|p: int| 0 <= p < i ==> #[trigger] cur@[p] == p,
        decreases n - i,
    {
        cur.push(i);
        i = i + 1;
    }
    proof {
        assert(cur@ =~= all_indices(entries@.len()));
    }
    let mut settled: Vec<Vec<usize>> = Vec::new();
    loop
        invariant
            n == entries@.len(),
            forall|p: int| 0 <= p < cur@.len() ==> (#[trigger] cur@[p] as int) < entries@.len(),
            full == spec_layering(entries@, all_indices(entries@.len())),
            (spec_layering(entries@, cur@) is Ok ==> full is Ok && full->Ok_0
                == settled.deep_view() + spec_layering(entries@, cur@)->Ok_0),
            (spec_layering(entries@, cur@) is Err ==> full is Err && full->Err_0
                == spec_layering(entries@, cur@)->Err_0),
            forall|l: int, p: int|
                0 <= l < settled.deep_view().len() && 0 <= p < settled.deep_view()[l].len()
                    ==> (#[trigger] settled.deep_view()[l][p] as int) < entries@.len(),
        decreases cur@.len(),
    {
        let ghost cur0 = cur@;
        let mut stay: Vec<usize> = Vec::new();
        let mut shift: Vec<usize> = Vec::new();
        let mut p: usize = 0;
        while p < cur.len()
            invariant
                p <= cur@.len(),
                cur@ == cur0,
                n == entries@.len(),
                forall|q: int|
                    0 <= q < cur@.len() ==> (#[trigger] cur@[q] as int) < entries@.len(),
                spec_stay(entries@, cur@, 0) == stay@ + spec_stay(entries@, cur@, p as int),
                spec_shift(entries@, cur@, 0) == shift@ + spec_shift(entries@, cur@, p as int),
                forall|q: int|
                    0 <= q < stay@.len() ==> (#[trigger] stay@[q] as int) < entries@.len(),
                forall|q: int|
                    0 <= q < shift@.len() ==> (#[trigger] shift@[q] as int) < entries@.len(),
            decreases cur@.len() - p,
        {
            let s = cur[p];
            let ghost stay_old = stay@;
            let ghost shift_old = shift@;
            if is_marked(entries, &cur, s) {
                shift.push(s);
                proof {
                    assert(spec_shift(entries@, cur@, p as int) == seq![cur@[p as int]]
                        + spec_shift(entries@, cur@, p as int + 1));
                    assert(shift@ + spec_shift(entries@, cur@, p as int + 1) =~= shift_old
                        + spec_shift(entries@, cur@, p as int));
                }
            } else {
                stay.push(s);
                proof {
                    assert(spec_stay(entries@, cur@, p as int) == seq![cur@[p as int]]
                        + spec_stay(entries@, cur@, p as int + 1));
                    assert(stay@ + spec_stay(entries@, cur@, p as int + 1) =~= stay_old
                        + spec_stay(entries@, cur@, p as int));
                }
            }
            p = p + 1;
        }
        proof {
            assert(stay@ =~= stay@ + spec_stay(entries@, cur@, cur@.len() as int));
            assert(shift@ =~= shift@ + spec_shift(entries@, cur@, cur@.len() as int));
        }
        if shift.len() == 0 {
            let ghost pre = settled.deep_view();
            settled.push(cur);
            proof {
                assert(spec_layering(entries@, cur0) == Result::<Seq<Seq<usize>>, Seq<usize>>::Ok(
                    seq![cur0],
                ));
                assert(settled.deep_view() =~~= pre + seq![cur0]);
                assert(pre + seq![cur0] =~= pre + spec_layering(entries@, cur0)->Ok_0);
            }
            return Result::Ok(settled);
        }
        if stay.len() == 0 {
            proof {
                assert(spec_layering(entries@, cur0) == Result::<Seq<Seq<usize>>, Seq<usize>>::Err(
                    cur0,
                ));
            }
            return Result::Err(cur);
        }
        proof {
            lemma_split_partition(entries@, cur0, 0);
            lemma_split_members(entries@, cur0, 0);
            assert(spec_layering(entries@, cur0) == (match spec_layering(entries@, shift@) {
                Result::Ok(rest) => Result::<Seq<Seq<usize>>, Seq<usize>>::Ok(seq![stay@] + rest),
                Result::Err(e) => Result::<Seq<Seq<usize>>, Seq<usize>>::Err(e),
            }));
        }
        let ghost pre = settled.deep_view();
        settled.push(stay);
        proof {
            assert(settled.deep_view() =~~= pre + seq![stay@]);
            if spec_layering(entries@, shift@) is Ok {
                assert(pre + seq![stay@] + spec_layering(entries@, shift@)->Ok_0 =~= pre + (
                seq![stay@] + spec_layering(entries@, shift@)->Ok_0));
            }
        }
        cur = shift;
    }
}

/// A layer cut into stages of at most `cap` members, in order, with no
/// empty or padded stage: the last stage of a layer simply holds the
/// remainder.
pub open spec fn spec_chunks<T>(s: Seq<T>, cap: int) -> Seq<Seq<T>>
    decreases s.len(),
    when cap >= 1
{
    if s.len() == 0 {
        Seq::empty()
    } else if s.len() <= cap {
        seq![s]
    } else {
        seq![s.take(cap)] + spec_chunks(s.skip(cap), cap)
    }
}

/// All layers cut into stages, layer by layer.
pub open spec fn spec_stages<T>(layers: Seq<Seq<T>>, cap: int) -> Seq<Seq<T>>
    decreases layers.len(),
{
    if layers.len() == 0 {
        Seq::empty()
    } else {
        spec_chunks(layers[0], cap) + spec_stages(layers.skip(1), cap)
    }
}

/// Stage sizes are bounded and honest: every stage a layer is cut into
/// holds between one and `cap` systems — a remainder smaller than `cap`
/// forms its own stage, never padded, and no stage is empty — and
/// concatenating the stages gives back the layer exactly.
pub proof fn lemma_chunks_sizes<T>(s: Seq<T>, cap: int)
    requires
        cap >= 1,
    ensures
        forall|i: int|
            0 <= i < spec_chunks(s, cap).len() ==> 0 < (#[trigger] spec_chunks(s, cap)[i]).len()
                <= cap,
        spec_chunks(s, cap).flatten() == s,
    decreases s.len(),
{
    if s.len() == 0 {
        assert(spec_chunks(s, cap).flatten() =~= s);
    } else if s.len() <= cap {
        assert(spec_chunks(s, cap) == seq![s]);
        assert(seq![s].first() == s);
        assert(seq![s].drop_first() =~= Seq::<Seq<T>>::empty());
        assert(seq![s].flatten() == s + seq![s].drop_first().flatten());
        assert(Seq::<Seq<T>>::empty().flatten() == Seq::<T>::empty());
        assert(s + Seq::<T>::empty() =~= s);
        assert(spec_chunks(s, cap).flatten() =~= s);
    } else {
        lemma_chunks_sizes(s.skip(cap), cap);
        let chunks = spec_chunks(s, cap);
        assert(chunks == seq![s.take(cap)] + spec_chunks(s.skip(cap), cap));
        assert forall|i: int| 0 <= i < chunks.len() implies 0 < (#[trigger] chunks[i]).len()
            <= cap by {
            if i > 0 {
                assert(chunks[i] == spec_chunks(s.skip(cap), cap)[i - 1]);
            }
        }
        assert(chunks.first() == s.take(cap));
        assert(chunks.drop_first() =~= spec_chunks(s.skip(cap), cap));
        assert(chunks.flatten() == s.take(cap) + spec_chunks(s.skip(cap), cap).flatten());
        assert(s.take(cap) + s.skip(cap) =~= s);
    }
}

/// The ids of the entries at the given indices.
pub open spec fn ids_at(entries: Seq<SysHints>, idxs: Seq<usize>) -> Seq<Seq<char>> {
    idxs.map_values(|s: usize| id_of(entries, s as int))
}

/// The ids of every member of every layer.
pub open spec fn ids_of_layers(entries: Seq<SysHints>, layers: Seq<Seq<usize>>) -> Seq<
    Seq<Seq<char>>,
> {
    layers.map_values(|l: Seq<usize>| ids_at(entries, l))
}

/// Layer membership is a function of the hint graph alone: two graphs with
/// the same entries layer identically, whatever order anything is visited
/// in.
pub proof fn lemma_layering_deterministic(e1: Seq<SysHints>, e2: Seq<SysHints>)
    requires
        e1 == e2,
    ensures
        spec_layering(e1, all_indices(e1.len())) == spec_layering(e2, all_indices(e2.len())),
{
}

/// A circular pair of constraints is never satisfied silently: if two
/// systems each must precede the other, layering reports an error rather
/// than producing layers.
pub proof fn lemma_cycle_detected(entries: Seq<SysHints>, x: int, y: int)
    requires
        entries.len() <= usize::MAX,
        0 <= x < entries.len(),
        0 <= y < entries.len(),
        must_precede(entries, x, y),
        must_precede(entries, y, x),
    ensures
        spec_layering(entries, all_indices(entries.len())) is Err,
{
    let all = all_indices(entries.len());
    if spec_layering(entries, all) is Ok {
        let layers = spec_layering(entries, all)->Ok_0;
        assert(all[x] == x as usize);
        assert(all[y] == y as usize);
        lemma_layering_covers(entries, all, x);
        lemma_layering_covers(entries, all, y);
        let (lx, px): (int, int) = choose|lx: int, px: int|
            0 <= lx < spec_layering(entries, all)->Ok_0.len() && 0 <= px < spec_layering(
                entries,
                all,
            )->Ok_0[lx].len() && #[trigger] spec_layering(entries, all)->Ok_0[lx][px] == all[x];
        let (ly, py): (int, int) = choose|ly: int, py: int|
            0 <= ly < spec_layering(entries, all)->Ok_0.len() && 0 <= py < spec_layering(
                entries,
                all,
            )->Ok_0[ly].len() && #[trigger] spec_layering(entries, all)->Ok_0[ly][py] == all[y];
        assert(layers[lx][px] == x as usize);
        assert(layers[ly][py] == y as usize);
        assert(must_precede(entries, layers[lx][px] as int, layers[ly][py] as int));
        assert(must_precede(entries, layers[ly][py] as int, layers[lx][px] as int));
        lemma_layering_ordered(entries, all, lx, px, ly, py);
        lemma_layering_ordered(entries, all, ly, py, lx, px);
    }
}

/// Cut one layer into stages of at most `cap` systems.
fn chunk_layer(layer: &Vec<String>, cap: usize, out: &mut Vec<Vec<String>>)
    requires
        cap >= 1,
    ensures
        final(out).deep_view() == old(out).deep_view() + spec_chunks(
            layer.deep_view(),
            cap as int,
        ),
{
    let ghost base = out.deep_view();
    proof {
        assert(layer.deep_view().skip(0) =~= layer.deep_view());
    }
    let mut q: usize = 0;
    while q < layer.len()
        invariant
            cap >= 1,
            q <= layer@.len(),
            base + spec_chunks(layer.deep_view(), cap as int) == out.deep_view() + spec_chunks(
                layer.deep_view().skip(q as int),
                cap as int,
            ),
        decreases layer@.len() - q,
    {
        let ghost rem = layer.deep_view().skip(q as int);
        let ghost pre = out.deep_view();
        let left = layer.len() - q;
        let take = if left <= cap {
            left
        } else {
            cap
        };
        let mut stage: Vec<String> = Vec::new();
        let mut t: usize = 0;
        while t < take
            invariant
                t <= take,
                q + take <= layer@.len(),
                layer@.len() <= usize::MAX,
                stage.deep_view() =~= layer.deep_view().subrange(q as int, q as int + t as int),
            decreases take - t,
        {
            let ghost sdv = stage.deep_view();
            stage.push(layer[q + t].clone());
            proof {
                assert(stage.deep_view() =~= sdv.push(layer.deep_view()[q as int + t as int]));
                assert(layer.deep_view().subrange(q as int, q as int + t as int + 1)
                    =~= layer.deep_view().subrange(q as int, q as int + t as int).push(
                    layer.deep_view()[q as int + t as int],
                ));
            }
            t = t + 1;
        }
        proof {
            if rem.len() <= cap as int {
                assert(stage.deep_view() =~= rem);
                assert(spec_chunks(rem, cap as int) == seq![rem]);
            } else {
                assert(stage.deep_view() =~= rem.take(cap as int));
                assert(spec_chunks(rem, cap as int) == seq![rem.take(cap as int)] + spec_chunks(
                    rem.skip(cap as int),
                    cap as int,
                ));
                assert(rem.skip(cap as int) =~= layer.deep_view().skip(q as int + take as int));
            }
        }
        out.push(stage);
        proof {
            assert(out.deep_view() =~~= pre + seq![stage.deep_view()]);
            assert(pre + seq![stage.deep_view()] + spec_chunks(
                layer.deep_view().skip(q as int + take as int),
                cap as int,
            ) =~= pre + (seq![stage.deep_view()] + spec_chunks(
                layer.deep_view().skip(q as int + take as int),
                cap as int,
            )));
            if rem.len() <= cap as int {
                assert(layer.deep_view().skip(q as int + take as int) =~= Seq::<
                    Seq<char>,
                >::empty());
                assert(spec_chunks(layer.deep_view().skip(q as int + take as int), cap as int)
                    =~= Seq::<Seq<Seq<char>>>::empty());
                assert(seq![stage.deep_view()] + Seq::<Seq<Seq<char>>>::empty()
                    =~= seq![stage.deep_view()]);
            }
        }
        q = q + take;
    }
    proof {
        assert(layer.deep_view().skip(q as int) =~= Seq::<Seq<char>>::empty());
        assert(out.deep_view() + Seq::<Seq<Seq<char>>>::empty() =~= out.deep_view());
    }
}

/// Cut every layer into stages of at most `cap` systems, keeping layer
/// order.
fn split_stages(layers: &Vec<Vec<String>>, cap: usize) -> (r: Vec<Vec<String>>)
    requires
        cap >= 1,
    ensures
        r.deep_view() == spec_stages(layers.deep_view(), cap as int),
{
    let mut out: Vec<Vec<String>> = Vec::new();
    proof {
        assert(layers.deep_view().skip(0) =~= layers.deep_view());
    }
    let mut l: usize = 0;
    while l < layers.len()
        invariant
            cap >= 1,
            l <= layers@.len(),
            spec_stages(layers.deep_view(), cap as int) == out.deep_view() + spec_stages(
                layers.deep_view().skip(l as int),
                cap as int,
            ),
        decreases layers@.len() - l,
    {
        let ghost pre = out.deep_view();
        let ghost remaining = layers.deep_view().skip(l as int);
        chunk_layer(&layers[l], cap, &mut out);
        proof {
            assert(remaining[0] == layers.deep_view()[l as int]);
            assert(remaining.skip(1) =~= layers.deep_view().skip(l as int + 1));
            assert(spec_stages(remaining, cap as int) == spec_chunks(remaining[0], cap as int)
                + spec_stages(remaining.skip(1), cap as int));
            assert(pre + spec_chunks(layers.deep_view()[l as int], cap as int) + spec_stages(
                layers.deep_view().skip(l as int + 1),
                cap as int,
            ) =~= pre + (spec_chunks(layers.deep_view()[l as int], cap as int) + spec_stages(
                layers.deep_view().skip(l as int + 1),
                cap as int,
            )));
        }
        l = l + 1;
    }
    proof {
        assert(layers.deep_view().skip(l as int) =~= Seq::<Seq<Seq<char>>>::empty());
        assert(out.deep_view() + Seq::<Seq<Seq<char>>>::empty() =~= out.deep_view());
    }
    out
}

/// Clone a stage's system names.
pub(crate) fn clone_names(src: &Vec<String>) -> (r: Vec<String>)
    ensures
        r.deep_view() == src.deep_view(),
{
    let mut out: Vec<String> = Vec::new();
    let mut i: usize = 0;
    while i < src.len()
        invariant
            i <= src@.len(),
            out.deep_view() =~= src.deep_view().take(i as int),
        decreases src@.len() - i,
    {
        let ghost pre = out.deep_view();
        out.push(src[i].clone());
        proof {
            assert(out.deep_view() =~= pre.push(src.deep_view()[i as int]));
            assert(src.deep_view().take(i as int + 1) =~= src.deep_view().take(i as int).push(
                src.deep_view()[i as int],
            ));
        }
        i = i + 1;
    }
    proof {
        assert(src.deep_view().take(src.deep_view().len() as int) =~= src.deep_view());
    }
    out
}

/// Map a sequence of entry indices to the entries' ids.
fn names_of(entries: &Vec<SysHints>, idxs: &Vec<usize>) -> (r: Vec<String>)
    requires
        forall|p: int| 0 <= p < idxs@.len() ==> (#[trigger] idxs@[p] as int) < entries@.len(),
    ensures
        r.deep_view() == ids_at(entries@, idxs@),
{
    let mut out: Vec<String> = Vec::new();
    let mut i: usize = 0;
    while i < idxs.len()
        invariant
            i <= idxs@.len(),
            forall|p: int| 0 <= p < idxs@.len() ==> (#[trigger] idxs@[p] as int) < entries@.len(),
            out.deep_view().len() == i,
            forall|p: int|
                0 <= p < i ==> #[trigger] out.deep_view()[p] == id_of(entries@, idxs@[p] as int),
        decreases idxs@.len() - i,
    {
        let ghost pre = out.deep_view();
        out.push(entries[idxs[i]].id.clone());
        proof {
            assert(out.deep_view() =~= pre.push(entries@[idxs@[i as int] as int].id@));
        }
        i = i + 1;
    }
    proof {
        assert(out.deep_view() =~= ids_at(entries@, idxs@));
    }
    out
}

/// The soft-ordering graph of one phase: each registered system's id with
/// its hints, all starting in layer zero.
pub struct RunOrderGraph {
    pub entries: Vec<SysHints>,
}

impl RunOrderGraph {
    /// An empty graph.
    pub fn new() -> (r: Self)
        ensures
            r.entries@.len() == 0,
    {
        RunOrderGraph { entries: Vec::new() }
    }

    /// Register one system's hints.
    pub fn add(&mut self, id: String, hints: Vec<RunOrder>)
        ensures
            final(self).entries@ == old(self).entries@.push(SysHints { id, hints }),
    {
        self.entries.push(SysHints { id, hints });
    }

    /// Resolve the hints into layers of system ids, or report the members
    /// of a circular constraint set. The outcome is exactly
    /// `spec_layering` of the registered entries: deterministic in the
    /// registration order and nothing else.
    pub fn build(self) -> (r: Result<Vec<Vec<String>>, Vec<String>>)
        ensures
            ({
                let full = spec_layering(self.entries@, all_indices(self.entries@.len()));
                match r {
                    Result::Ok(layers) => full is Ok && layers.deep_view() == ids_of_layers(
                        self.entries@,
                        full->Ok_0,
                    ),
                    Result::Err(ids) => full is Err && ids.deep_view() == ids_at(
                        self.entries@,
                        full->Err_0,
                    ),
                }
            }),
    {
        let ghost full = spec_layering(self.entries@, all_indices(self.entries@.len()));
        match layering(&self.entries) {
            Result::Ok(idx_layers) => {
                let mut out: Vec<Vec<String>> = Vec::new();
                let mut l: usize = 0;
                while l < idx_layers.len()
                    invariant
                        l <= idx_layers@.len(),
                        full is Ok && idx_layers.deep_view() == full->Ok_0,
                        full == spec_layering(self.entries@, all_indices(self.entries@.len())),
                        forall|l2: int, p: int|
                            0 <= l2 < idx_layers.deep_view().len() && 0 <= p
                                < idx_layers.deep_view()[l2].len() ==> (
                            #[trigger] idx_layers.deep_view()[l2][p] as int)
                                < self.entries@.len(),
                        out.deep_view().len() == l,
                        forall|l2: int|
                            0 <= l2 < l ==> #[trigger] out.deep_view()[l2] == ids_at(
                                self.entries@,
                                idx_layers.deep_view()[l2],
                            ),
                    decreases idx_layers@.len() - l,
                {
                    let ghost pre = out.deep_view();
                    proof {
                        assert(idx_layers.deep_view()[l as int] =~= idx_layers@[l as int]@);
                        assert forall|p: int| 0 <= p < idx_layers@[l as int]@.len() implies (
                        #[trigger] idx_layers@[l as int]@[p] as int) < self.entries@.len() by {
                            assert(idx_layers.deep_view()[l as int][p] == idx_layers@[l as int]@[p]);
                        }
                    }
                    let names = names_of(&self.entries, &idx_layers[l]);
                    out.push(names);
                    proof {
                        assert(out.deep_view() =~~= pre.push(
                            ids_at(self.entries@, idx_layers.deep_view()[l as int]),
                        ));
                    }
                    l = l + 1;
                }
                proof {
                    assert(out.deep_view() =~~= ids_of_layers(self.entries@, full->Ok_0));
                }
                Result::Ok(out)
            },
            Result::Err(idxs) => {
                let names = names_of(&self.entries, &idxs);
                Result::Err(names)
            },
        }
    }
}

/// A configuration mistake found while wiring systems together: all of
/// these are fatal before the first tick.
pub enum ConfigError {
    /// A second system was registered under an id already in use.
    DuplicateSystem(String),
    /// A system names a hard dependency that is not registered: the
    /// depending system's id, then the missing id.
    MissingDependency(String, String),
    /// The named systems' ordering hints demand shifts forever: a circular
    /// constraint set.
    CircularOrder(Vec<String>),
}

/// An immutable description of one registered system: its unique id, the
/// ids of systems that must exist for it to work (validation only, never
/// ordering), its soft ordering hints, and its phase.
pub struct SystemInfo {
    pub id: String,
    pub depends: Vec<String>,
    pub run_ord: Vec<RunOrder>,
    pub sys_type: SystemType,
}

impl SystemInfo {
    /// Bundle a system's registration data.
    pub fn new(id: String, depends: Vec<String>, run_ord: Vec<RunOrder>, sys_type: SystemType) -> (r:
        Self)
        ensures
            r == (SystemInfo { id, depends, run_ord, sys_type }),
    {
        SystemInfo { id, depends, run_ord, sys_type }
    }
}

/// Builds the stage pipeline of one phase: collects each system's hints,
/// then layers them and cuts the layers into bounded stages.
pub struct StagesBuilder {
    pub graph: RunOrderGraph,
}

impl StagesBuilder {
    /// An empty phase.
    pub fn new() -> (r: Self)
        ensures
            r.graph.entries@.len() == 0,
    {
        StagesBuilder { graph: RunOrderGraph::new() }
    }

    /// Register one system of this phase.
    pub fn add(&mut self, id: String, hints: Vec<RunOrder>)
        ensures
            final(self).graph.entries@ == old(self).graph.entries@.push(SysHints { id, hints }),
    {
        self.graph.add(id, hints);
    }

    /// Layer the phase's systems and cut each layer into stages of at most
    /// `cap` systems. A remainder smaller than `cap` forms its own final
    /// stage; no stage is empty or padded.
    pub fn build(self, cap: usize) -> (r: Result<Vec<Vec<String>>, ConfigError>)
        requires
            cap >= 1,
        ensures
            ({
                let full = spec_layering(
                    self.graph.entries@,
                    all_indices(self.graph.entries@.len()),
                );
                match r {
                    Result::Ok(stages) => full is Ok && stages.deep_view() == spec_stages(
                        ids_of_layers(self.graph.entries@, full->Ok_0),
                        cap as int,
                    ),
                    Result::Err(e) => full is Err && (e matches ConfigError::CircularOrder(ids)
                        && ids.deep_view() == ids_at(self.graph.entries@, full->Err_0)),
                }
            }),
    {
        match self.graph.build() {
            Result::Ok(layers) => Result::Ok(split_stages(&layers, cap)),
            Result::Err(ids) => Result::Err(ConfigError::CircularOrder(ids)),
        }
    }
}

} // verus!
