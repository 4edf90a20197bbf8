//! What a debug capture writes for a bug report, as plain values: the timed
//! steps, the OCR lines in the engine's own order, and the architect blocks
//! the parser built from them.

use vstd::prelude::*;

use crate::rules::{decimal, lemma_decimal_injective, push_decimal};
use crate::strategy::OfferKind;

verus! {

/// The directory, under the app's data root, that holds one directory per
/// capture.
pub const DEBUG_DIR: &'static str = "temple-debug";

/// The OCR-line dump's file name.
pub const OCR_LINES_FILE: &'static str = "ocr-lines.json";

/// One timed step of a debug capture.
#[derive(Debug, Clone, PartialEq)]
pub struct DebugTiming {
    pub label: String,
    pub ms: u64,
}

/// One OCR line, as the engine gave it and where it sits on screen.
#[derive(Debug, Clone, PartialEq)]
pub struct DumpLine {
    pub text: String,
    /// `[x, y, w, h]` in capture px.
    pub rect: [i32; 4],
}

/// One text region's lines, in the engine's own order.
#[derive(Debug, Clone, PartialEq)]
pub struct DumpRegion {
    /// Which region this is.
    pub region: String,
    /// The region of interest it was cropped at, capture px.
    pub rect: [i32; 4],
    /// The crop's clipped top-left corner: what the line boxes were offset by.
    pub origin: [i32; 2],
    pub lines_in_engine_order: Vec<DumpLine>,
}

/// One architect block the parser built out of those lines.
#[derive(Debug, Clone, PartialEq)]
pub struct DumpBlock {
    pub architect_name: String,
    /// `"change"` or `"upgrade"`.
    pub kind: String,
    pub printed_target: String,
    /// The union of the boxes of the lines the block was built from.
    pub rect: Option<[i32; 4]>,
}

/// What the OCR-line dump holds: every line with its box, per region, and
/// what the parser made of them.
#[derive(Debug, Clone, PartialEq)]
pub struct OcrLinesDump {
    pub regions: Vec<DumpRegion>,
    /// The panel title the read settled on, and the line it came off.
    pub title: Option<String>,
    pub title_rect: Option<[i32; 4]>,
    pub blocks: Vec<DumpBlock>,
}

/// The wire word for an offer kind.
pub open spec fn kind_wire(kind: OfferKind) -> Seq<char> {
    match kind {
        OfferKind::Change => "change"@,
        OfferKind::Upgrade => "upgrade"@,
    }
}

/// One parsed architect block, for the dump.
pub fn dump_block(architect_name: &str, kind: OfferKind, printed_target: &str, rect: Option<[i32; 4]>) -> (r: DumpBlock)
    ensures
        r.architect_name@ == architect_name@,
        r.kind@ == kind_wire(kind),
        r.printed_target@ == printed_target@,
        r.rect == rect,
{
    DumpBlock {
        architect_name: String::from_str(architect_name),
        kind: match kind {
            OfferKind::Change => String::from_str("change"),
            OfferKind::Upgrade => String::from_str("upgrade"),
        },
        printed_target: String::from_str(printed_target),
        rect,
    }
}

/// The name of the directory a capture taken at `unix_ms` dumps into: the
/// timestamp, so repeated dumps accumulate instead of overwriting.
pub fn dump_name(unix_ms: u64) -> (r: String)
    ensures
        r@ == decimal(unix_ms as nat),
{
    let mut out = String::new();
    push_decimal(&mut out, unix_ms);
    assert(out@ =~= decimal(unix_ms as nat));
    out
}

/// One directory per capture: captures taken at different times never share
/// a dump directory, so repeated dumps accumulate instead of overwriting.
pub proof fn lemma_each_capture_dumps_apart(a: u64, b: u64)
    requires
        a != b,
    ensures
        decimal(a as nat) != decimal(b as nat),
{
    lemma_decimal_injective(a as nat, b as nat);
}

/// The log line for a file that could not be written.
pub open spec fn write_failure_text(file: Seq<char>, reason: Seq<char>) -> Seq<char> {
    file + " could not be written: "@ + reason
}

/// Fold one write's outcome into a capture report's file and note lists, and
/// hand back the line to log. `files` is a claim about the disk: a name goes
/// in only when the bytes landed. A failure carries its own message, `reason`
/// as the error spelled it, into `notes` instead, and the same text comes back
/// for the log; a success logs nothing.
pub fn note_write(files: &mut Vec<String>, notes: &mut Vec<String>, file: &str, result: Result<(), String>) -> (r:
    Option<String>)
    ensures
        match result {
            Ok(()) => {
                &&& r is None
                &&& final(files)@.len() == old(files)@.len() + 1
                &&& final(files)@.take(old(files)@.len() as int) == old(files)@
                &&& final(files)@.last()@ == file@
                &&& final(notes)@ == old(notes)@
            },
            Err(reason) => {
                &&& r matches Some(line) && line@ == write_failure_text(file@, reason@)
                &&& final(files)@ == old(files)@
                &&& final(notes)@ == old(notes)@.push(r.unwrap())
            },
        },
{
    match result {
        Ok(()) => {
            let ghost before = files@;
            files.push(String::from_str(file));
            assert(files@.take(before.len() as int) =~= before);
            None
        },
        Err(reason) => {
            let mut line = String::from_str(file);
            line.append(" could not be written: ");
            line.append(reason.as_str());
            notes.push(line.clone());
            Some(line)
        },
    }
}

} // verus!
