//! Per-item survey records and the row builder.
//!
//! One row of the survey holds, per tracked produce item, three consecutive
//! cells: a strict yes/no would-throw flag and two free-text scale ratings.
//! The builder consumes them in schema order, keeps the offending text of
//! every non-strict rating as a provenance note, and fails fast on a
//! malformed flag or a short row.

use vstd::prelude::*;
use crate::decimal::{Dec, clamp_spec, in_scale_range, lemma_clamp_in_range, lemma_clamp_idempotent,
    dec_one};
use crate::scale::{ScaleOutcome, best_effort_parse_value, scale_outcome_matches, mentions_fresh,
    contains_fresh, is_strict, trim_spec, strict_dec, has_embedded, embedded_dec,
    first_match_start};

verus! {

/// How many produce items one row tracks.
pub const ITEM_COUNT: usize = 20;

/// How many leading metadata cells of a raw row fall outside the schema.
pub const METADATA_COLS: usize = 3;

/// A fatal row-level ingestion fault.
#[derive(Debug)]
pub enum IngestError {
    /// The would-throw cell held the offending text instead of a yes/no token.
    MalformedBooleanError(String),
    /// The row ended before the schema's cells were all consumed.
    UnexpectedEndOfRowError,
}

/// The would-throw cell holds one of the two recognized tokens.
pub open spec fn bool_ok(cell: Seq<char>) -> bool {
    cell == "Yes"@ || cell == "No"@
}

/// Compares two pieces of text character by character.
fn str_eq(a: &str, b: &str) -> (r: bool)
    ensures
        r == (a@ == b@),
{
    let n = a.unicode_len();
    let m = b.unicode_len();
    if n != m {
        return false;
    }
    let mut i: usize = 0;
    while i < n
        invariant
            i <= n == a@.len(),
            n == b@.len(),
            forall|j: int| 0 <= j < i ==> a@[j] == b@[j],
        decreases n - i,
    {
        if a.get_char(i) != b.get_char(i) {
            return false;
        }
        i = i + 1;
    }
    proof {
        assert(a@ =~= b@);
    }
    true
}

/// Parses the strict yes/no would-throw cell: exactly "Yes" or "No", with
/// no recovery; anything else is the fatal malformed-boolean fault.
pub fn parse_bool(input: &str) -> (r: Result<bool, IngestError>)
    ensures
        input@ == "Yes"@ ==> r == Ok::<bool, IngestError>(true),
        input@ == "No"@ ==> r == Ok::<bool, IngestError>(false),
        r is Ok <==> bool_ok(input@),
        ({
            match r {
                Ok(b) => b == (input@ == "Yes"@),
                Err(IngestError::MalformedBooleanError(t)) => t@ == input@,
                Err(IngestError::UnexpectedEndOfRowError) => false,
            }
        }),
{
    proof {
        reveal_strlit("Yes");
        reveal_strlit("No");
        assert("Yes"@.len() == 3);
        assert("No"@.len() == 2);
        assert("Yes"@ != "No"@);
    }
    if str_eq(input, "Yes") {
        Ok(true)
    } else if str_eq(input, "No") {
        Ok(false)
    } else {
        Err(IngestError::MalformedBooleanError(input.to_owned()))
    }
}

/// One respondent's answer for one produce item.
#[derive(Debug)]
pub struct Fruit {
    pub would_throw: bool,
    pub expected_rancidness: Option<Dec>,
    pub desired_rancidness: Option<Dec>,
    pub notes: String,
}

/// The value settled for one rating cell: the strict value, else the first
/// embedded number, else the bottom of the scale when the text mentions
/// "fresh", else absent.
pub open spec fn resolve_scale(cell: Seq<char>) -> Option<Dec> {
    if is_strict(trim_spec(cell)) {
        Some(strict_dec(trim_spec(cell)))
    } else if has_embedded(cell) {
        Some(embedded_dec(cell, first_match_start(cell)))
    } else if contains_fresh(cell) {
        Some(dec_one())
    } else {
        None
    }
}

/// The rating cell contributes its original text to the record's notes.
pub open spec fn scale_needs_note(cell: Seq<char>) -> bool {
    !is_strict(trim_spec(cell))
}

/// The notes accumulated from the two rating cells: the expected-field note
/// first, the separator only when notes are already non-empty.
pub open spec fn notes_spec(e: Seq<char>, d: Seq<char>) -> Seq<char> {
    let first = if scale_needs_note(e) {
        e
    } else {
        Seq::<char>::empty()
    };
    if scale_needs_note(d) {
        if first.len() > 0 {
            first + " | "@ + d
        } else {
            d
        }
    } else {
        first
    }
}

/// Law: the notes are non-empty exactly when one of the rating cells
/// needed non-strict parsing — granted that each offending cell held any
/// text at all, since the note kept is that cell's own text.
pub proof fn lemma_notes_iff_recovery(e: Seq<char>, d: Seq<char>)
    requires
        scale_needs_note(e) ==> e.len() > 0,
        scale_needs_note(d) ==> d.len() > 0,
    ensures
        notes_spec(e, d).len() > 0 <==> (scale_needs_note(e) || scale_needs_note(d)),
{
}

/// The record built from one would-throw cell and two rating cells.
pub open spec fn fruit_matches(f: Fruit, bcell: Seq<char>, ecell: Seq<char>, dcell: Seq<char>) -> bool {
    &&& f.would_throw == (bcell == "Yes"@)
    &&& f.expected_rancidness == resolve_scale(ecell)
    &&& f.desired_rancidness == resolve_scale(dcell)
    &&& f.notes@ == notes_spec(ecell, dcell)
}

/// Settles one rating outcome, appending its note and applying the
/// fresh-word fallback on total failure.
fn settle_scale(out: ScaleOutcome, notes: &mut String, sep: bool, cell: Ghost<Seq<char>>) -> (r:
    Option<Dec>)
    requires
        scale_outcome_matches(out, cell@),
    ensures
        r == resolve_scale(cell@),
        !scale_needs_note(cell@) ==> final(notes)@ == old(notes)@,
        scale_needs_note(cell@) ==> final(notes)@ == (if sep && old(notes)@.len() > 0 {
            old(notes)@ + " | "@ + cell@
        } else {
            old(notes)@ + cell@
        }),
{
    match out {
        ScaleOutcome::Clean(d) => Some(d),
        ScaleOutcome::Recovered(d, note) => {
            if sep && !notes.as_str().is_empty() {
                notes.append(" | ");
            }
            notes.append(note.as_str());
            Some(d)
        },
        ScaleOutcome::Missing(note) => {
            if sep && !notes.as_str().is_empty() {
                notes.append(" | ");
            }
            notes.append(note.as_str());
            if mentions_fresh(note.as_str()) {
                Some(Dec { neg: false, mant: 1, exp: 0 })
            } else {
                None
            }
        },
    }
}

impl Fruit {
    /// Builds one record from the three consecutive cells at `pos`: the
    /// would-throw flag, the expected rating and the desired rating. A
    /// malformed flag or a short row is fatal; rating noise never is.
    pub fn from_cells(cells: &Vec<String>, pos: usize) -> (r: Result<(Fruit, usize), IngestError>)
        ensures
            ({
                match r {
                    Ok(fp) => {
                        &&& pos + 3 <= cells@.len()
                        &&& bool_ok(cells@[pos as int]@)
                        &&& fruit_matches(
                            fp.0,
                            cells@[pos as int]@,
                            cells@[pos + 1]@,
                            cells@[pos + 2]@,
                        )
                        &&& fp.1 == pos + 3
                    },
                    Err(IngestError::MalformedBooleanError(t)) => {
                        &&& pos < cells@.len()
                        &&& !bool_ok(cells@[pos as int]@)
                        &&& t@ == cells@[pos as int]@
                    },
                    Err(IngestError::UnexpectedEndOfRowError) => {
                        &&& cells@.len() < pos + 3
                        &&& (pos < cells@.len() ==> bool_ok(cells@[pos as int]@))
                    },
                }
            }),
    {
        if pos >= cells.len() {
            return Err(IngestError::UnexpectedEndOfRowError);
        }
        let would_throw = match parse_bool(cells[pos].as_str()) {
            Ok(b) => b,
            Err(e) => {
                return Err(e);
            },
        };
        if pos + 1 >= cells.len() {
            return Err(IngestError::UnexpectedEndOfRowError);
        }
        let e_out = best_effort_parse_value(cells[pos + 1].as_str());
        if pos + 2 >= cells.len() {
            return Err(IngestError::UnexpectedEndOfRowError);
        }
        let d_out = best_effort_parse_value(cells[pos + 2].as_str());
        let ghost ecell = cells@[pos + 1]@;
        let ghost dcell = cells@[pos + 2]@;
        let mut notes = String::new();
        let expected_rancidness = settle_scale(e_out, &mut notes, false, Ghost(ecell));
        let desired_rancidness = settle_scale(d_out, &mut notes, true, Ghost(dcell));
        proof {
            assert(notes@ == notes_spec(ecell, dcell)) by {
                if scale_needs_note(ecell) && scale_needs_note(dcell) {
                    if ecell.len() > 0 {
                        assert(Seq::<char>::empty() + ecell =~= ecell);
                        assert(ecell + " | "@ + dcell =~= (Seq::<char>::empty() + ecell) + " | "@
                            + dcell);
                    } else {
                        assert(Seq::<char>::empty() + ecell =~= Seq::<char>::empty());
                        assert(Seq::<char>::empty() + dcell =~= dcell);
                    }
                } else if scale_needs_note(ecell) {
                    assert(Seq::<char>::empty() + ecell =~= ecell);
                } else if scale_needs_note(dcell) {
                    assert(Seq::<char>::empty() + dcell =~= dcell);
                }
            }
        }
        Ok(
            (
                Fruit { would_throw, expected_rancidness, desired_rancidness, notes },
                pos + 3,
            ),
        )
    }
}

/// Clamping lifted over an optional rating: absent values stay absent.
pub open spec fn clamp_opt(o: Option<Dec>) -> Option<Dec> {
    match o {
        Some(d) => Some(clamp_spec(d)),
        None => None,
    }
}

/// The normalized record: both ratings clamped into the scale range, the
/// flag and the notes untouched.
pub open spec fn massaged_fruit(r: Fruit, f: Fruit) -> bool {
    &&& r.would_throw == f.would_throw
    &&& r.expected_rancidness == clamp_opt(f.expected_rancidness)
    &&& r.desired_rancidness == clamp_opt(f.desired_rancidness)
    &&& r.notes@ == f.notes@
}

impl Fruit {
    /// Normalizes the record, pulling each present rating into the scale
    /// range `[1, 5]`; this is the only stage that alters parsed values.
    pub fn massage(self) -> (r: Fruit)
        ensures
            massaged_fruit(r, self),
    {
        Fruit {
            would_throw: self.would_throw,
            expected_rancidness: match self.expected_rancidness {
                Some(d) => Some(d.clamp_scale()),
                None => None,
            },
            desired_rancidness: match self.desired_rancidness {
                Some(d) => Some(d.clamp_scale()),
                None => None,
            },
            notes: self.notes,
        }
    }
}

/// Law: a normalized record holds only in-range ratings.
pub proof fn lemma_massage_in_range(f: Fruit, m: Fruit)
    requires
        massaged_fruit(m, f),
    ensures
        m.expected_rancidness matches Some(d) ==> in_scale_range(d),
        m.desired_rancidness matches Some(d) ==> in_scale_range(d),
{
    if f.expected_rancidness is Some {
        lemma_clamp_in_range(f.expected_rancidness->0);
    }
    if f.desired_rancidness is Some {
        lemma_clamp_in_range(f.desired_rancidness->0);
    }
}

/// Law: normalizing is idempotent — normalizing an already normalized
/// record yields an identical record.
pub proof fn lemma_massage_idempotent(f: Fruit, m1: Fruit, m2: Fruit)
    requires
        massaged_fruit(m1, f),
        massaged_fruit(m2, m1),
    ensures
        m2.would_throw == m1.would_throw,
        m2.expected_rancidness == m1.expected_rancidness,
        m2.desired_rancidness == m1.desired_rancidness,
        m2.notes@ == m1.notes@,
{
    if f.expected_rancidness is Some {
        lemma_clamp_idempotent(f.expected_rancidness->0);
    }
    if f.desired_rancidness is Some {
        lemma_clamp_idempotent(f.desired_rancidness->0);
    }
}

/// One row: exactly one record per tracked item, in schema order.
pub struct Response {
    pub items: Vec<Fruit>,
}

/// The record slot `k` of a row starting at `start` is in bounds and its
/// would-throw cell is well formed.
pub open spec fn slot_ok(cells: Seq<String>, start: int, k: int) -> bool {
    &&& start + 3 * k + 3 <= cells.len()
    &&& bool_ok(cells[start + 3 * k]@)
}

/// The first `k` record slots of the row parse without a fatal fault.
pub open spec fn prefix_ok(cells: Seq<String>, start: int, k: int) -> bool {
    forall|j: int| 0 <= j < k ==> slot_ok(cells, start, j)
}

/// The whole row parses without a fatal fault.
pub open spec fn row_ok(cells: Seq<String>, start: int) -> bool {
    prefix_ok(cells, start, ITEM_COUNT as int)
}

/// The record slot `k` built from the row matches its three cells.
pub open spec fn slot_fruit_matches(f: Fruit, cells: Seq<String>, start: int, k: int) -> bool {
    fruit_matches(f, cells[start + 3 * k]@, cells[start + 3 * k + 1]@, cells[start + 3 * k + 2]@)
}

/// Which fatal fault the row produced.
pub open spec fn row_err_matches(e: IngestError, cells: Seq<String>, start: int) -> bool {
    match e {
        IngestError::MalformedBooleanError(t) => exists|k: int|
            {
                &&& 0 <= k < ITEM_COUNT
                &&& #[trigger] prefix_ok(cells, start, k)
                &&& start + 3 * k < cells.len()
                &&& !bool_ok(cells[start + 3 * k]@)
                &&& t@ == cells[start + 3 * k]@
            },
        IngestError::UnexpectedEndOfRowError => {
            &&& cells.len() < start + 3 * ITEM_COUNT
            &&& exists|k: int|
                {
                    &&& 0 <= k < ITEM_COUNT
                    &&& #[trigger] prefix_ok(cells, start, k)
                    &&& cells.len() < start + 3 * k + 3
                    &&& (start + 3 * k < cells.len() ==> bool_ok(cells[start + 3 * k]@))
                }
        },
    }
}

impl Response {
    /// Builds one row's records from the raw cells, consuming three cells
    /// per tracked item from `start` on and failing fast on the first
    /// fatal fault.
    pub fn from_cells(cells: &Vec<String>, start: usize) -> (r: Result<Response, IngestError>)
        requires
            start + 3 * ITEM_COUNT <= usize::MAX,
        ensures
            r is Ok <==> row_ok(cells@, start as int),
            ({
                match r {
                    Ok(resp) => {
                        &&& resp.items@.len() == ITEM_COUNT
                        &&& forall|k: int|
                            0 <= k < ITEM_COUNT ==> slot_fruit_matches(
                                #[trigger] resp.items@[k],
                                cells@,
                                start as int,
                                k,
                            )
                    },
                    Err(e) => row_err_matches(e, cells@, start as int),
                }
            }),
    {
        let mut items: Vec<Fruit> = Vec::new();
        let mut pos = start;
        let mut k: usize = 0;
        while k < ITEM_COUNT
            invariant
                start + 3 * ITEM_COUNT <= usize::MAX,
                k <= ITEM_COUNT,
                pos == start + 3 * k,
                items@.len() == k,
                prefix_ok(cells@, start as int, k as int),
                forall|j: int|
                    0 <= j < k ==> slot_fruit_matches(
                        #[trigger] items@[j],
                        cells@,
                        start as int,
                        j,
                    ),
            decreases ITEM_COUNT - k,
        {
            match Fruit::from_cells(cells, pos) {
                Ok(fp) => {
                    items.push(fp.0);
                    pos = fp.1;
                    k = k + 1;
                },
                Err(e) => {
                    proof {
                        let ki = k as int;
                        match e {
                            IngestError::MalformedBooleanError(_) => {
                                assert(!slot_ok(cells@, start as int, ki));
                            },
                            IngestError::UnexpectedEndOfRowError => {
                                assert(!slot_ok(cells@, start as int, ki));
                            },
                        }
                        assert(!row_ok(cells@, start as int));
                    }
                    return Err(e);
                },
            }
        }
        Ok(Response { items })
    }

    /// Normalizes every record of the row.
    pub fn massage(self) -> (r: Response)
        ensures
            r.items@.len() == self.items@.len(),
            forall|i: int|
                0 <= i < self.items@.len() ==> massaged_fruit(
                    #[trigger] r.items@[i],
                    self.items@[i],
                ),
    {
        let ghost orig = self.items@;
        let mut rest = self.items;
        let mut out: Vec<Fruit> = Vec::new();
        while rest.len() > 0
            invariant
                out@.len() + rest@.len() == orig.len(),
                rest@ == orig.skip(out@.len() as int),
                forall|i: int|
                    0 <= i < out@.len() ==> massaged_fruit(#[trigger] out@[i], orig[i]),
            decreases rest@.len(),
        {
            let f = rest.remove(0);
            proof {
                assert(f == orig[out@.len() as int]);
                assert(rest@ =~= orig.skip(out@.len() as int + 1));
            }
            out.push(f.massage());
        }
        Response { items: out }
    }
}

/// One row's output columns: the record without its notes.
#[derive(Clone, Copy)]
pub struct FlatFruit {
    pub would_throw: bool,
    pub expected_rancidness: Option<Dec>,
    pub desired_rancidness: Option<Dec>,
}

/// A row flattened to its tabular form: per item, the three output columns
/// in schema order.
pub struct FlattenedResponse {
    pub items: Vec<FlatFruit>,
}

impl FlattenedResponse {
    /// Projects a row to its flattened tabular form.
    pub fn map(response: &Response) -> (r: FlattenedResponse)
        ensures
            r.items@.len() == response.items@.len(),
            forall|i: int|
                0 <= i < response.items@.len() ==> {
                    &&& (#[trigger] r.items@[i]).would_throw == response.items@[i].would_throw
                    &&& r.items@[i].expected_rancidness == response.items@[i].expected_rancidness
                    &&& r.items@[i].desired_rancidness == response.items@[i].desired_rancidness
                },
    {
        let n = response.items.len();
        let mut items: Vec<FlatFruit> = Vec::new();
        let mut i: usize = 0;
        while i < n
            invariant
                i <= n == response.items@.len(),
                items@.len() == i,
                forall|j: int|
                    0 <= j < i ==> {
                        &&& (#[trigger] items@[j]).would_throw == response.items@[j].would_throw
                        &&& items@[j].expected_rancidness == response.items@[j].expected_rancidness
                        &&& items@[j].desired_rancidness == response.items@[j].desired_rancidness
                    },
            decreases n - i,
        {
            let f = &response.items[i];
            items.push(
                FlatFruit {
                    would_throw: f.would_throw,
                    expected_rancidness: f.expected_rancidness,
                    desired_rancidness: f.desired_rancidness,
                },
            );
            i = i + 1;
        }
        FlattenedResponse { items }
    }
}

/// Parses every raw row, skipping the leading metadata cells; the first
/// fatal row fault aborts the whole ingest.
pub fn ingest_rows(rows: &Vec<Vec<String>>) -> (r: Result<Vec<Response>, IngestError>)
    ensures
        r is Ok <==> (forall|j: int|
            0 <= j < rows@.len() ==> row_ok(#[trigger] rows@[j]@, METADATA_COLS as int)),
        ({
            match r {
                Ok(v) => {
                    &&& v@.len() == rows@.len()
                    &&& forall|j: int|
                        0 <= j < rows@.len() ==> (#[trigger] v@[j]).items@.len() == ITEM_COUNT
                    &&& forall|j: int, k: int|
                        0 <= j < rows@.len() && 0 <= k < ITEM_COUNT ==> slot_fruit_matches(
                            #[trigger] v@[j].items@[k],
                            rows@[j]@,
                            METADATA_COLS as int,
                            k,
                        )
                },
                Err(e) => exists|j: int|
                    {
                        &&& 0 <= j < rows@.len()
                        &&& (forall|i: int|
                            0 <= i < j ==> row_ok(#[trigger] rows@[i]@, METADATA_COLS as int))
                        &&& !row_ok(#[trigger] rows@[j]@, METADATA_COLS as int)
                        &&& row_err_matches(e, rows@[j]@, METADATA_COLS as int)
                    },
            }
        }),
{
    let n = rows.len();
    let mut out: Vec<Response> = Vec::new();
    let mut j: usize = 0;
    while j < n
        invariant
            j <= n == rows@.len(),
            out@.len() == j,
            forall|i: int| 0 <= i < j ==> row_ok(#[trigger] rows@[i]@, METADATA_COLS as int),
            forall|i: int| 0 <= i < j ==> (#[trigger] out@[i]).items@.len() == ITEM_COUNT,
            forall|i: int, k: int|
                0 <= i < j && 0 <= k < ITEM_COUNT ==> slot_fruit_matches(
                    #[trigger] out@[i].items@[k],
                    rows@[i]@,
                    METADATA_COLS as int,
                    k,
                ),
        decreases n - j,
    {
        match Response::from_cells(&rows[j], METADATA_COLS) {
            Ok(resp) => {
                out.push(resp);
                j = j + 1;
            },
            Err(e) => {
                return Err(e);
            },
        }
    }
    Ok(out)
}

/// Normalizes every parsed row.
pub fn massage_all(responses: Vec<Response>) -> (r: Vec<Response>)
    ensures
        r@.len() == responses@.len(),
        forall|j: int|
            0 <= j < responses@.len() ==> (#[trigger] r@[j]).items@.len()
                == responses@[j].items@.len(),
        forall|j: int, k: int|
            0 <= j < responses@.len() && 0 <= k < responses@[j].items@.len() ==> massaged_fruit(
                #[trigger] r@[j].items@[k],
                responses@[j].items@[k],
            ),
{
    let ghost orig = responses@;
    let mut rest = responses;
    let mut out: Vec<Response> = Vec::new();
    while rest.len() > 0
        invariant
            out@.len() + rest@.len() == orig.len(),
            rest@ == orig.skip(out@.len() as int),
            forall|j: int|
                0 <= j < out@.len() ==> (#[trigger] out@[j]).items@.len()
                    == orig[j].items@.len(),
            forall|j: int, k: int|
                0 <= j < out@.len() && 0 <= k < orig[j].items@.len() ==> massaged_fruit(
                    #[trigger] out@[j].items@[k],
                    orig[j].items@[k],
                ),
        decreases rest@.len(),
    {
        let resp = rest.remove(0);
        proof {
            assert(resp == orig[out@.len() as int]);
            assert(rest@ =~= orig.skip(out@.len() as int + 1));
        }
        out.push(resp.massage());
    }
    out
}

} // verus!
