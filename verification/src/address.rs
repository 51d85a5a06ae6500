//! Geospatial addressing via H3 cells (through the `h3o` crate).
use vstd::prelude::*;
use crate::error::CoreError;
use crate::hexcode::hex_digit;

verus! {

/// The lowercase hexadecimal digits of a number, without leading zeros.
pub open spec fn hex_number(n: nat) -> Seq<char>
    decreases n,
{
    if n < 16 {
        seq![hex_digit(n as int)]
    } else {
        hex_number(n / 16).push(hex_digit((n % 16) as int))
    }
}

/// The lowercase hexadecimal digits of a 64-bit value.
pub open spec fn hex_u64(v: u64) -> Seq<char> {
    hex_number(v as nat)
}

/// Whether a 64-bit value is a valid H3 cell index (`h3o::CellIndex::try_from`).
pub uninterp spec fn h3_is_cell(index: u64) -> bool;

/// The H3 cell index that text parses to, if any (`h3o`'s `FromStr`).
pub uninterp spec fn h3_parse_spec(text: Seq<char>) -> Option<u64>;

/// The cells within grid distance `k` of a cell (`h3o::CellIndex::grid_disk`).
pub uninterp spec fn h3_disk_spec(index: u64, k: u32) -> Seq<u64>;

/// Check that a value is a valid H3 cell index.
///
/// Calls `h3o::CellIndex::try_from`; the error is rendered as text.
#[verifier::external_body]
fn h3_validate(index: u64) -> (r: Result<(), String>)
    ensures
        r is Ok <==> h3_is_cell(index),
{
    h3o::CellIndex::try_from(index).map(|_| ()).map_err(|e| e.to_string())
}

/// Parse an H3 cell from text.
///
/// Calls `str::parse::<h3o::CellIndex>`, which reads a base-16 `u64` and
/// validates it as a cell; the error is rendered as text. The parsed value
/// is named; the contract also claims what the source shows: the lowercase
/// hex of a valid cell parses back to it.
#[verifier::external_body]
fn h3_parse(text: &str) -> (r: Result<u64, String>)
    ensures
        r matches Ok(x) ==> h3_is_cell(x),
        match h3_parse_spec(text@) {
            Some(v) => r matches Ok(x) && x == v,
            None => r is Err,
        },
        forall|v: u64| h3_is_cell(v) && text@ == #[trigger] hex_u64(v) ==> r is Ok && r->Ok_0 == v,
{
    text.parse::<h3o::CellIndex>().map(u64::from).map_err(|e| e.to_string())
}

/// The text of a valid H3 cell.
///
/// Calls `h3o::CellIndex::try_from` and its `Display`, which writes the
/// index in lowercase hexadecimal.
#[verifier::external_body]
fn h3_text(index: u64) -> (r: String)
    requires
        h3_is_cell(index),
    ensures
        r@ == hex_u64(index),
{
    match h3o::CellIndex::try_from(index) {
        Ok(cell) => cell.to_string(),
        Err(_) => String::new(),
    }
}

/// The cells within grid distance `k` of a valid cell, the cell included.
///
/// Calls `h3o::CellIndex::try_from` and `grid_disk`; the list is named, and
/// holds the cell itself and only valid cells.
#[verifier::external_body]
fn h3_disk(index: u64, k: u32) -> (r: Vec<u64>)
    requires
        h3_is_cell(index),
    ensures
        r@ == h3_disk_spec(index, k),
        r@.contains(index),
        forall|i: int| 0 <= i < r@.len() ==> h3_is_cell(#[trigger] r@[i]),
{
    match h3o::CellIndex::try_from(index) {
        Ok(cell) => cell.grid_disk::<Vec<h3o::CellIndex>>(k).into_iter().map(u64::from).collect(),
        Err(_) => Vec::new(),
    }
}

/// A geospatial cell address (an H3 cell).
#[derive(Clone, Copy, PartialEq, Eq, Hash, Debug)]
pub struct CellId {
    index: u64,
}

impl CellId {
    /// The 64-bit H3 index.
    pub closed spec fn index_spec(&self) -> u64 {
        self.index
    }

    /// The index is a valid H3 cell.
    pub closed spec fn wf(&self) -> bool {
        h3_is_cell(self.index)
    }

    /// The cell with a given 64-bit H3 index, if it is a valid cell.
    pub fn from_index(index: u64) -> (r: Result<Self, CoreError>)
        ensures
            r is Ok <==> h3_is_cell(index),
            r matches Ok(c) ==> c.wf() && c.index_spec() == index,
            r matches Err(e) ==> e is Cell,
    {
        match h3_validate(index) {
            Ok(()) => Ok(CellId { index }),
            Err(message) => Err(CoreError::Cell(message)),
        }
    }

    /// The 64-bit H3 index.
    pub fn index(&self) -> (r: u64)
        ensures
            r == self.index_spec(),
    {
        self.index
    }

    /// Parse an H3 cell from its hexadecimal string form.
    pub fn parse_hex(text: &str) -> (r: Result<Self, CoreError>)
        ensures
            match h3_parse_spec(text@) {
                Some(v) => r matches Ok(c) && c.wf() && c.index_spec() == v,
                None => r matches Err(e) && e is Cell,
            },
            forall|v: u64| h3_is_cell(v) && text@ == #[trigger] hex_u64(v) ==> (r matches Ok(c)
                && c.index_spec() == v),
    {
        match h3_parse(text) {
            Ok(index) => Ok(CellId { index }),
            Err(message) => Err(CoreError::Cell(message)),
        }
    }

    /// The H3 hexadecimal representation.
    pub fn to_hex(&self) -> (r: String)
        requires
            self.wf(),
        ensures
            r@ == hex_u64(self.index_spec()),
    {
        h3_text(self.index)
    }

    /// The H3 resolution of this cell: bits 52 to 55 of the index.
    pub fn resolution(&self) -> (r: u8)
        ensures
            r == ((self.index_spec() >> 52u64) & 15u64) as u8,
    {
        ((self.index >> 52u64) & 15u64) as u8
    }

    /// All cells within grid distance `k` (the "k-ring"), including this
    /// cell.
    pub fn ring(&self, k: u32) -> (r: Vec<CellId>)
        requires
            self.wf(),
        ensures
            r@.map_values(|c: CellId| c.index_spec()) == h3_disk_spec(self.index_spec(), k),
            exists|i: int| 0 <= i < r@.len() && (#[trigger] r@[i]).index_spec() == self.index_spec(),
            forall|i: int| 0 <= i < r@.len() ==> (#[trigger] r@[i]).wf(),
    {
        let cells = h3_disk(self.index, k);
        let mut out: Vec<CellId> = Vec::new();
        let mut i: usize = 0;
        while i < cells.len()
            invariant
                i <= cells@.len(),
                forall|j: int| 0 <= j < cells@.len() ==> h3_is_cell(#[trigger] cells@[j]),
                out@.len() == i,
                forall|j: int| 0 <= j < i ==> (#[trigger] out@[j]).index == cells@[j],
            decreases cells@.len() - i,
        {
            out.push(CellId { index: cells[i] });
            i = i + 1;
        }
        proof {
            assert(out@.map_values(|c: CellId| c.index_spec()) =~= cells@);
            let j = choose|j: int| 0 <= j < cells@.len() && cells@[j] == self.index;
            assert(out@[j].index_spec() == self.index_spec());
        }
        out
    }

    /// Whether the cell is one of `cells`.
    pub fn is_in(&self, cells: &[CellId]) -> (r: bool)
        ensures
            r == exists|i: int| 0 <= i < cells@.len() && (#[trigger] cells@[i]).index_spec() == self.index_spec(),
    {
        let mut i: usize = 0;
        while i < cells.len()
            invariant
                i <= cells@.len(),
                forall|j: int| 0 <= j < i ==> (#[trigger] cells@[j]).index != self.index,
            decreases cells@.len() - i,
        {
            if cells[i].index == self.index {
                return true;
            }
            i = i + 1;
        }
        false
    }
}

} // verus!
