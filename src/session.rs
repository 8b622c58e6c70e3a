use vstd::prelude::*;
use crate::panel::{
    ingest_primary, ingest_sibling, primary_accepted, Panel, PanelView, Timestamp,
};
use crate::serial::{get_pos_from_logname, reference_position, reference_valid, CodecError};

verus! {

/// Why a row of a scan was not taken, or why its siblings are not looked up.
#[derive(Clone, Copy, PartialEq, Eq, Debug, Structural)]
pub enum ScanError {
    /// The row's log reference names no position of the panel.
    MalformedReference,
    /// The serials of the panel cannot be generated from the row's serial.
    MalformedSerial,
    /// The scanned board has no test history.
    NoHistory,
    /// The row belongs to a scan that a newer one has replaced.
    Superseded,
    /// The scan was abandoned on a malformed row of the scanned board.
    Aborted,
}

/// The scan in progress: its panel, and the generation that tags the
/// lookups made for it, so that late rows of a replaced scan are dropped.
pub struct Session {
    pub generation: u64,
    pub panel: Panel,
    pub aborted: bool,
}

pub struct SessionView {
    pub generation: nat,
    pub panel: PanelView,
    pub aborted: bool,
}

impl View for Session {
    type V = SessionView;

    open spec fn view(&self) -> SessionView {
        SessionView { generation: self.generation as nat, panel: self.panel@, aborted: self.aborted }
    }
}

/// The panel with its serials and test cycles dropped.
pub open spec fn cleared(p: PanelView) -> PanelView {
    PanelView { selected_pos: 0, serials: Seq::empty(), attempts: Seq::empty(), ..p }
}

/// The state after a row of the scanned board, tagged with generation `g`,
/// and what is reported for it.
pub open spec fn primary_step(
    s: SessionView,
    g: nat,
    serial: Seq<char>,
    station: Seq<char>,
    result: Seq<char>,
    time: Timestamp,
    log: Seq<char>,
) -> (SessionView, Result<(), ScanError>) {
    let abandoned = SessionView { panel: cleared(s.panel), aborted: true, ..s };
    if g != s.generation {
        (s, Err(ScanError::Superseded))
    } else if s.aborted {
        (s, Err(ScanError::Aborted))
    } else if !reference_valid(log) || reference_position(log) >= s.panel.boards {
        (abandoned, Err(ScanError::MalformedReference))
    } else if !primary_accepted(s.panel, reference_position(log), serial) {
        (abandoned, Err(ScanError::MalformedSerial))
    } else {
        (
            SessionView {
                panel: ingest_primary(
                    s.panel,
                    reference_position(log),
                    serial,
                    station,
                    result,
                    time,
                    log,
                ),
                ..s
            },
            Ok(()),
        )
    }
}

/// Whether a row of the sibling at `position`, tagged with generation `g`,
/// is taken into the panel.
pub open spec fn sibling_taken(s: SessionView, g: nat, position: nat) -> bool {
    &&& g == s.generation
    &&& !s.aborted
    &&& position < s.panel.boards
    &&& s.panel.serials.len() > 0
}

/// The state after a row of the sibling at `position`, tagged with generation `g`.
pub open spec fn sibling_step(
    s: SessionView,
    g: nat,
    position: nat,
    result: Seq<char>,
    log: Seq<char>,
) -> SessionView {
    if sibling_taken(s, g, position) {
        SessionView { panel: ingest_sibling(s.panel, position, result, log), ..s }
    } else {
        s
    }
}

/// The positions to look up once the scanned board's rows are in, each with
/// its serial: every position but the selected one, in order.
pub open spec fn sibling_targets(p: PanelView) -> Seq<(nat, Seq<char>)> {
    Seq::new(
        (p.boards - 1) as nat,
        |j: int|
            {
                let i = if j < p.selected_pos { j } else { j + 1 };
                (i as nat, p.serials[i])
            },
    )
}

impl Session {
    pub open spec fn wf(&self) -> bool {
        self.panel.wf()
    }

    /// No scan yet.
    pub fn new() -> (r: Session)
        ensures
            r.wf(),
            r@.generation == 0,
            !r@.aborted,
            r@.panel.serials.len() == 0,
            r@.panel.attempts.len() == 0,
    {
        Session { generation: 0, panel: Panel::empty(), aborted: false }
    }

    /// Starts a scan of a panel of `boards` boards of `product`: the panel of
    /// the previous scan is replaced whole, and the scan gets a new
    /// generation, which is returned to tag its lookups.
    pub fn begin(&mut self, boards: u8, product: String) -> (g: u64)
        requires
            old(self).generation < u64::MAX,
        ensures
            final(self).wf(),
            g as nat == old(self)@.generation + 1,
            final(self)@.generation == g,
            !final(self)@.aborted,
            final(self)@.panel.boards == boards,
            final(self)@.panel.product == product@,
            final(self)@.panel.selected_pos == 0,
            final(self)@.panel.serials.len() == 0,
            final(self)@.panel.attempts.len() == 0,
    {
        self.generation = self.generation + 1;
        self.panel = Panel::new(boards, product);
        self.aborted = false;
        self.generation
    }

    /// Takes a row of the scanned board. A row of a replaced scan, or of one
    /// already abandoned, changes nothing; a malformed row abandons the scan
    /// and empties its panel.
    pub fn primary_row(
        &mut self,
        g: u64,
        serial: String,
        station: String,
        result: String,
        time: Timestamp,
        log_file_name: String,
    ) -> (r: Result<(), ScanError>)
        requires
            old(self).wf(),
        ensures
            final(self).wf(),
            (final(self)@, r) == primary_step(
                old(self)@,
                g as nat,
                serial@,
                station@,
                result@,
                time,
                log_file_name@,
            ),
    {
        if g != self.generation {
            return Err(ScanError::Superseded);
        }
        if self.aborted {
            return Err(ScanError::Aborted);
        }
        let position = match get_pos_from_logname(log_file_name.as_str()) {
            Ok(p) => p,
            Err(_) => {
                self.abandon();
                return Err(ScanError::MalformedReference);
            },
        };
        if position >= self.panel.boards {
            self.abandon();
            return Err(ScanError::MalformedReference);
        }
        match self.panel.push(position, serial, station, result, time, log_file_name) {
            Ok(()) => Ok(()),
            Err(CodecError::MalformedSerial) => {
                self.abandon();
                Err(ScanError::MalformedSerial)
            },
            Err(CodecError::MalformedReference) => {
                self.abandon();
                Err(ScanError::MalformedReference)
            },
        }
    }

    fn abandon(&mut self)
        requires
            old(self).wf(),
        ensures
            final(self).wf(),
            final(self)@ == (SessionView {
                panel: cleared(old(self)@.panel),
                aborted: true,
                ..old(self)@
            }),
    {
        self.panel.serials.clear();
        self.panel.results.clear();
        self.panel.selected_pos = 0;
        self.aborted = true;
        assert(self@.panel.serials =~= Seq::<Seq<char>>::empty());
        assert(self@.panel.attempts =~= Seq::empty());
    }

    /// The sibling lookups owed once the scanned board's rows of generation
    /// `g` are in: none for a replaced or abandoned scan, none without
    /// history, and none for a panel of one board.
    pub fn sibling_lookups(&self, g: u64) -> (r: Result<Vec<(u8, String)>, ScanError>)
        requires
            self.wf(),
        ensures
            g != self.generation ==> r == Err::<Vec<(u8, String)>, ScanError>(
                ScanError::Superseded,
            ),
            g == self.generation && self.aborted ==> r == Err::<Vec<(u8, String)>, ScanError>(
                ScanError::Aborted,
            ),
            g == self.generation && !self.aborted && self@.panel.attempts.len() == 0 ==> r
                == Err::<Vec<(u8, String)>, ScanError>(ScanError::NoHistory),
            g == self.generation && !self.aborted && self@.panel.attempts.len() > 0 ==> r is Ok,
            r is Ok ==> {
                let v = r->Ok_0;
                let t = sibling_targets(self@.panel);
                &&& v@.len() == t.len()
                &&& forall|j: int|
                    0 <= j < t.len() ==> (#[trigger] v@[j]).0 as nat == t[j].0 && v@[j].1@
                        == t[j].1
            },
            self@.panel.boards == 1 && r is Ok ==> r->Ok_0@.len() == 0,
    {
        if g != self.generation {
            return Err(ScanError::Superseded);
        }
        if self.aborted {
            return Err(ScanError::Aborted);
        }
        if self.panel.results.len() == 0 {
            return Err(ScanError::NoHistory);
        }
        let ghost t = sibling_targets(self@.panel);
        let boards = self.panel.boards;
        let sel = self.panel.selected_pos;
        let mut v: Vec<(u8, String)> = Vec::new();
        let mut i: u8 = 0;
        while i < boards
            invariant
                self.wf(),
                self.panel.results.len() > 0,
                boards == self.panel.boards,
                sel == self.panel.selected_pos,
                sel < boards,
                t == sibling_targets(self@.panel),
                i <= boards,
                v@.len() == if i <= sel { i as int } else { i - 1 },
                forall|j: int|
                    0 <= j < v@.len() ==> (#[trigger] v@[j]).0 as nat == t[j].0 && v@[j].1@
                        == t[j].1,
            decreases boards - i,
        {
            if i != sel {
                let s = self.panel.serials[i as usize].clone();
                v.push((i, s));
            }
            i = i + 1;
        }
        Ok(v)
    }

    /// Takes a row of the sibling at `position`; rows of a replaced or
    /// abandoned scan, or for a position off the panel, change nothing.
    pub fn sibling_row(&mut self, g: u64, position: u8, result: String, log_file_name: String)
        requires
            old(self).wf(),
        ensures
            final(self).wf(),
            final(self)@ == sibling_step(
                old(self)@,
                g as nat,
                position as nat,
                result@,
                log_file_name@,
            ),
    {
        if g == self.generation && !self.aborted && position < self.panel.boards
            && self.panel.serials.len() > 0 {
            self.panel.add_result(position, result, log_file_name);
        }
    }
}

/// Rows tagged with the generation of a scan that a newer one has replaced
/// never reach the panel: they leave the whole state as it is.
pub proof fn lemma_superseded_rows_dropped(
    s: SessionView,
    g: nat,
    position: nat,
    serial: Seq<char>,
    station: Seq<char>,
    result: Seq<char>,
    time: Timestamp,
    log: Seq<char>,
)
    requires
        g < s.generation,
    ensures
        primary_step(s, g, serial, station, result, time, log) == (
            s,
            Err::<(), ScanError>(ScanError::Superseded),
        ),
        sibling_step(s, g, position, result, log) == s,
{
}

} // verus!
