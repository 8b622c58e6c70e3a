use vstd::prelude::*;
use vstd::string::*;
use crate::serial::{CodecError, generate_serials, panel_serials, serial_well_formed};

verus! {

/// The outcome of one board in one test cycle.
#[derive(Clone, Copy, PartialEq, Eq, Debug, Structural)]
pub enum BoardResult {
    Passed,
    Failed,
    /// Not known yet: no row of that board has been matched to the cycle.
    Unknown,
}

/// When a test cycle ran: seconds since 1970-01-01 00:00:00, in the store's
/// own (zone-less) clock.
#[derive(Clone, Copy, PartialEq, Eq, Debug, Structural)]
pub struct Timestamp {
    pub seconds: i64,
}

/// One test cycle of the whole panel: one result and one log reference per
/// board position.
pub struct PanelResult {
    pub time: Timestamp,
    pub station: String,
    pub results: Vec<BoardResult>,
    pub logs: Vec<String>,
}

pub struct AttemptView {
    pub time: Timestamp,
    pub station: Seq<char>,
    pub results: Seq<BoardResult>,
    pub logs: Seq<Seq<char>>,
}

impl View for PanelResult {
    type V = AttemptView;

    open spec fn view(&self) -> AttemptView {
        AttemptView {
            time: self.time,
            station: self.station@,
            results: self.results@,
            logs: self.logs@.map_values(|l: String| l@),
        }
    }
}

/// The panel currently inspected: its serials, indexed by position, and its
/// test cycles, most recent first.
pub struct Panel {
    pub boards: u8,
    pub product: String,
    pub selected_pos: u8,
    pub serials: Vec<String>,
    pub results: Vec<PanelResult>,
}

pub struct PanelView {
    pub boards: nat,
    pub product: Seq<char>,
    pub selected_pos: nat,
    pub serials: Seq<Seq<char>>,
    pub attempts: Seq<AttemptView>,
}

impl View for Panel {
    type V = PanelView;

    open spec fn view(&self) -> PanelView {
        PanelView {
            boards: self.boards as nat,
            product: self.product@,
            selected_pos: self.selected_pos as nat,
            serials: self.serials@.map_values(|s: String| s@),
            attempts: self.results@.map_values(|a: PanelResult| a@),
        }
    }
}

/// What a result column of the store means: exactly `Passed` is a pass,
/// anything else a failure.
pub open spec fn result_of(text: Seq<char>) -> BoardResult {
    if text == "Passed"@ {
        BoardResult::Passed
    } else {
        BoardResult::Failed
    }
}

/// A test cycle in which only the board at `position` is known yet.
pub open spec fn new_attempt(
    n: nat,
    position: nat,
    res: BoardResult,
    time: Timestamp,
    station: Seq<char>,
    log: Seq<char>,
) -> AttemptView {
    AttemptView {
        time,
        station,
        results: Seq::new(n, |j: int| if j == position { res } else { BoardResult::Unknown }),
        logs: Seq::new(n, |j: int| if j == position { log } else { Seq::<char>::empty() }),
    }
}

/// Whether a row of the scanned board can be taken: the serials are known
/// already, or they can be generated from this row.
pub open spec fn primary_accepted(p: PanelView, position: nat, serial: Seq<char>) -> bool {
    p.serials.len() > 0 || serial_well_formed(serial, position)
}

/// The panel after a row of the scanned board: the first such row fixes the
/// serials and the selected position, and every row adds a test cycle at the end.
pub open spec fn ingest_primary(
    p: PanelView,
    position: nat,
    serial: Seq<char>,
    station: Seq<char>,
    result: Seq<char>,
    time: Timestamp,
    log: Seq<char>,
) -> PanelView {
    let first = p.serials.len() == 0;
    PanelView {
        boards: p.boards,
        product: p.product,
        selected_pos: if first { position } else { p.selected_pos },
        serials: if first { panel_serials(serial, position, p.boards) } else { p.serials },
        attempts: p.attempts.push(
            new_attempt(p.boards, position, result_of(result), time, station, log),
        ),
    }
}

/// The index of the first test cycle, at or after `k`, whose slot `i` is
/// still unknown, or `attempts.len()` when there is none.
pub open spec fn first_unknown_from(attempts: Seq<AttemptView>, i: nat, k: nat) -> nat
    decreases attempts.len() - k,
{
    if k >= attempts.len() {
        attempts.len()
    } else if attempts[k as int].results[i as int] == BoardResult::Unknown {
        k
    } else {
        first_unknown_from(attempts, i, k + 1)
    }
}

/// The panel after a row of the sibling at position `i`: it fills slot `i`
/// of the first test cycle where that slot is still unknown, if any.
pub open spec fn ingest_sibling(p: PanelView, i: nat, result: Seq<char>, log: Seq<char>) -> PanelView {
    let k = first_unknown_from(p.attempts, i, 0);
    if k < p.attempts.len() {
        let a = p.attempts[k as int];
        PanelView {
            attempts: p.attempts.update(
                k as int,
                AttemptView {
                    time: a.time,
                    station: a.station,
                    results: a.results.update(i as int, result_of(result)),
                    logs: a.logs.update(i as int, log),
                },
            ),
            ..p
        }
    } else {
        p
    }
}

impl Panel {
    /// The serials are absent or one per position, every test cycle has one
    /// slot per position, and cycles exist only once the serials are known.
    pub open spec fn wf(&self) -> bool {
        &&& self.serials.len() == 0 || self.serials.len() == self.boards
        &&& self.results.len() > 0 ==> self.serials.len() == self.boards && self.boards > 0
        &&& self.serials.len() > 0 ==> self.selected_pos < self.boards
        &&& forall|k: int|
            0 <= k < self.results.len() ==> {
                &&& (#[trigger] self.results@[k]).results.len() == self.boards
                &&& self.results@[k].logs.len() == self.boards
            }
    }

    /// No panel: nothing scanned yet.
    pub fn empty() -> (r: Panel)
        ensures
            r.wf(),
            r@.boards == 0,
            r@.product.len() == 0,
            r@.selected_pos == 0,
            r@.serials.len() == 0,
            r@.attempts.len() == 0,
    {
        Panel {
            boards: 0,
            product: String::new(),
            selected_pos: 0,
            serials: Vec::new(),
            results: Vec::new(),
        }
    }

    /// Whether the panel holds no serials yet.
    pub fn is_empty(&self) -> (r: bool)
        ensures
            r == (self@.serials.len() == 0),
    {
        self.serials.len() == 0
    }

    /// A fresh panel of `boards` boards of the product `product`.
    pub fn new(boards: u8, product: String) -> (r: Panel)
        ensures
            r.wf(),
            r@.boards == boards,
            r@.product == product@,
            r@.selected_pos == 0,
            r@.serials.len() == 0,
            r@.attempts.len() == 0,
    {
        Panel { boards, product, selected_pos: 0, serials: Vec::new(), results: Vec::new() }
    }

    /// Takes a row of the scanned board, found at `position`. The first row
    /// generates the serials of the whole panel from its serial; a serial
    /// from which they cannot be generated is refused and leaves the panel as
    /// it was.
    pub fn push(
        &mut self,
        position: u8,
        serial: String,
        station: String,
        result: String,
        date_time: Timestamp,
        log_file_name: String,
    ) -> (r: Result<(), CodecError>)
        requires
            old(self).wf(),
            position < old(self).boards,
        ensures
            final(self).wf(),
            r is Ok <==> primary_accepted(old(self)@, position as nat, serial@),
            r is Ok ==> final(self)@ == ingest_primary(
                old(self)@,
                position as nat,
                serial@,
                station@,
                result@,
                date_time,
                log_file_name@,
            ),
            r is Err ==> final(self)@ == old(self)@ && r == Err::<(), CodecError>(
                CodecError::MalformedSerial,
            ),
    {
        let ghost before = self@;
        let ghost log_view = log_file_name@;
        if self.serials.len() == 0 {
            let serials = generate_serials(serial, position, self.boards);
            match serials {
                Ok(v) => {
                    self.serials = v;
                    self.selected_pos = position;
                },
                Err(e) => {
                    return Err(e);
                },
            }
        }
        let res = board_result_of(&result);
        let n = self.boards as usize;
        let mut results: Vec<BoardResult> = Vec::with_capacity(n);
        let mut logs: Vec<String> = Vec::with_capacity(n);
        let mut j: usize = 0;
        while j < n
            invariant
                j <= n,
                results@.len() == j,
                logs@.len() == j,
                forall|m: int| 0 <= m < j ==> #[trigger] results@[m] == BoardResult::Unknown,
                forall|m: int| 0 <= m < j ==> (#[trigger] logs@[m])@ == Seq::<char>::empty(),
            decreases n - j,
        {
            results.push(BoardResult::Unknown);
            logs.push(String::new());
            j = j + 1;
        }
        let ghost blank_logs = logs@;
        results.set(position as usize, res);
        logs.set(position as usize, log_file_name);
        let attempt = PanelResult { time: date_time, station, results, logs };
        let ghost expected = new_attempt(
            before.boards,
            position as nat,
            res,
            date_time,
            attempt.station@,
            log_view,
        );
        assert(attempt@.results =~= expected.results);
        assert forall|m: int| 0 <= m < n implies #[trigger] attempt@.logs[m] == expected.logs[m] by {
            if m != position {
                assert(blank_logs[m]@ == Seq::<char>::empty());
                assert(attempt.logs@[m] == blank_logs[m]);
            }
        }
        assert(attempt@.logs =~= expected.logs);
        self.results.push(attempt);
        assert(self@.attempts =~= before.attempts.push(expected));
        assert(self@.serials =~= ingest_primary(
            before,
            position as nat,
            serial@,
            station@,
            result@,
            date_time,
            log_file_name@,
        ).serials);
        Ok(())
    }

    /// Takes a row of the sibling at position `i`: fills slot `i` of the
    /// first test cycle where it is still unknown. Rows beyond the cycles
    /// that have such a slot are dropped.
    pub fn add_result(&mut self, i: u8, result: String, log: String)
        requires
            old(self).wf(),
            i < old(self).boards,
        ensures
            final(self).wf(),
            final(self)@ == ingest_sibling(old(self)@, i as nat, result@, log@),
    {
        let ghost before = self@;
        let res = board_result_of(&result);
        let n = self.results.len();
        let mut k: usize = 0;
        loop
            invariant
                k <= n,
                n == self.results@.len(),
                self@ == before,
                self.wf(),
                i < self.boards,
                first_unknown_from(before.attempts, i as nat, k as nat) == first_unknown_from(
                    before.attempts,
                    i as nat,
                    0,
                ),
            ensures
                k <= n,
                self@ == before,
                self.wf(),
                first_unknown_from(before.attempts, i as nat, k as nat) == first_unknown_from(
                    before.attempts,
                    i as nat,
                    0,
                ),
                k < n ==> before.attempts[k as int].results[i as int] == BoardResult::Unknown,
            decreases n - k,
        {
            if k == n {
                break;
            }
            assert(self.results@[k as int]@ == before.attempts[k as int]);
            if self.results[k].results[i as usize] == BoardResult::Unknown {
                break;
            }
            k = k + 1;
        }
        assert(first_unknown_from(before.attempts, i as nat, 0) == k);
        if k < n {
            let ghost log_view = log@;
            let mut a = self.results.remove(k);
            assert(a@ == before.attempts[k as int]);
            a.results.set(i as usize, res);
            a.logs.set(i as usize, log);
            let ghost old_a = before.attempts[k as int];
            assert(a@.results =~= old_a.results.update(i as int, result_of(result@)));
            assert(a@.logs =~= old_a.logs.update(i as int, log_view));
            self.results.insert(k, a);
            assert(self@.attempts =~= ingest_sibling(before, i as nat, result@, log@).attempts);
        }
    }
}

/// Reads the store's result column.
pub fn board_result_of(result: &String) -> (r: BoardResult)
    ensures
        r == result_of(result@),
{
    let passed = String::from_str("Passed");
    if *result == passed {
        BoardResult::Passed
    } else {
        BoardResult::Failed
    }
}

/// How many test cycles still have slot `i` unknown.
pub open spec fn unknown_count(attempts: Seq<AttemptView>, i: nat) -> nat
    decreases attempts.len(),
{
    if attempts.len() == 0 {
        0
    } else {
        unknown_count(attempts.drop_last(), i) + if attempts.last().results[i as int]
            == BoardResult::Unknown {
            1nat
        } else {
            0nat
        }
    }
}

proof fn lemma_first_unknown_found(attempts: Seq<AttemptView>, i: nat, k: nat)
    ensures
        first_unknown_from(attempts, i, k) <= attempts.len(),
        first_unknown_from(attempts, i, k) < attempts.len() ==> attempts[first_unknown_from(
            attempts,
            i,
            k,
        ) as int].results[i as int] == BoardResult::Unknown,
    decreases attempts.len() - k,
{
    if k < attempts.len() && attempts[k as int].results[i as int] != BoardResult::Unknown {
        lemma_first_unknown_found(attempts, i, k + 1);
    }
}

proof fn lemma_none_unknown(attempts: Seq<AttemptView>, i: nat, k: nat)
    requires
        first_unknown_from(attempts, i, k) == attempts.len(),
    ensures
        unknown_count(attempts, i) == 0 || exists|j: int|
            0 <= j < k && (#[trigger] attempts[j]).results[i as int] == BoardResult::Unknown,
    decreases attempts.len() - k,
{
    if k < attempts.len() {
        lemma_none_unknown(attempts, i, k + 1);
        if exists|j: int|
            0 <= j < k + 1 && (#[trigger] attempts[j]).results[i as int] == BoardResult::Unknown {
            let j = choose|j: int|
                0 <= j < k + 1 && (#[trigger] attempts[j]).results[i as int]
                    == BoardResult::Unknown;
            assert(j != k);
        }
    } else {
        lemma_no_unknown_count_zero(attempts, i);
    }
}

proof fn lemma_no_unknown_count_zero(attempts: Seq<AttemptView>, i: nat)
    ensures
        unknown_count(attempts, i) == 0 || exists|j: int|
            0 <= j < attempts.len() && (#[trigger] attempts[j]).results[i as int]
                == BoardResult::Unknown,
    decreases attempts.len(),
{
    if attempts.len() > 0 {
        let t = attempts.drop_last();
        lemma_no_unknown_count_zero(t, i);
        if exists|j: int| 0 <= j < t.len() && (#[trigger] t[j]).results[i as int] == BoardResult::Unknown {
            let j = choose|j: int|
                0 <= j < t.len() && (#[trigger] t[j]).results[i as int] == BoardResult::Unknown;
            assert(attempts[j] == t[j]);
        } else {
            if attempts.last().results[i as int] == BoardResult::Unknown {
                assert(attempts[attempts.len() - 1].results[i as int] == BoardResult::Unknown);
            }
        }
    }
}

proof fn lemma_unknown_counted(attempts: Seq<AttemptView>, i: nat, k: int)
    requires
        0 <= k < attempts.len(),
        attempts[k].results[i as int] == BoardResult::Unknown,
    ensures
        unknown_count(attempts, i) >= 1,
    decreases attempts.len(),
{
    if k < attempts.len() - 1 {
        let t = attempts.drop_last();
        assert(t[k] == attempts[k]);
        lemma_unknown_counted(t, i, k);
    }
}

proof fn lemma_fill_one_unknown(attempts: Seq<AttemptView>, i: nat, k: int, a: AttemptView)
    requires
        0 <= k < attempts.len(),
        attempts[k].results[i as int] == BoardResult::Unknown,
        a.results[i as int] != BoardResult::Unknown,
    ensures
        unknown_count(attempts.update(k, a), i) + 1 == unknown_count(attempts, i),
    decreases attempts.len(),
{
    let u = attempts.update(k, a);
    if k == attempts.len() - 1 {
        assert(u.drop_last() =~= attempts.drop_last());
    } else {
        let t = attempts.drop_last();
        assert(u.drop_last() =~= t.update(k, a));
        lemma_fill_one_unknown(t, i, k, a);
    }
}

/// A row of a sibling never adds a test cycle. It fills one unknown slot
/// of its position when one is left, and otherwise changes nothing: rows
/// beyond the cycles with that slot unknown are dropped.
pub proof fn lemma_sibling_row_fills_at_most_one(
    p: PanelView,
    i: nat,
    result: Seq<char>,
    log: Seq<char>,
)
    requires
        forall|k: int| 0 <= k < p.attempts.len() ==> i < (#[trigger] p.attempts[k]).results.len(),
    ensures
        ingest_sibling(p, i, result, log).attempts.len() == p.attempts.len(),
        unknown_count(p.attempts, i) == 0 ==> ingest_sibling(p, i, result, log) == p,
        unknown_count(p.attempts, i) > 0 ==> unknown_count(
            ingest_sibling(p, i, result, log).attempts,
            i,
        ) + 1 == unknown_count(p.attempts, i),
{
    let k = first_unknown_from(p.attempts, i, 0);
    lemma_first_unknown_found(p.attempts, i, 0);
    if k == p.attempts.len() {
        lemma_none_unknown(p.attempts, i, 0);
    }
    if k < p.attempts.len() {
        lemma_unknown_counted(p.attempts, i, k as int);
        let a = p.attempts[k as int];
        let filled = AttemptView {
            time: a.time,
            station: a.station,
            results: a.results.update(i as int, result_of(result)),
            logs: a.logs.update(i as int, log),
        };
        assert(filled.results[i as int] == result_of(result));
        lemma_fill_one_unknown(p.attempts, i, k as int, filled);
    }
}

} // verus!
