//! The assembled chart: judge lines with their notes and timelines.
use vstd::prelude::*;
use crate::anim::{Anim, Color};

verus! {

/// Animated transform of a line or a note.
pub struct Object {
    pub alpha: Anim<i64>,
    pub rotation: Anim<i64>,
    pub translation: (Anim<i64>, Anim<i64>),
    pub scale: (Anim<i64>, Anim<i64>),
}

impl Object {
    pub open spec fn wf(&self) -> bool {
        &&& self.alpha.wf()
        &&& self.rotation.wf()
        &&& self.translation.0.wf()
        &&& self.translation.1.wf()
        &&& self.scale.0.wf()
        &&& self.scale.1.wf()
    }
}

/// What a note asks of the player.
#[derive(PartialEq, Eq, Structural, Clone, Copy, Debug)]
pub enum NoteKind {
    Click,
    Hold { end_time: i64, end_height: i64 },
    Flick,
    Drag,
}

/// A note: when it is to be hit (nanoseconds) and how far along its line's
/// scroll it sits (millionths).
pub struct Note {
    pub object: Object,
    pub kind: NoteKind,
    pub time: i64,
    pub height: i64,
    pub speed: i64,
    pub above: bool,
    pub multiple_hint: bool,
    pub fake: bool,
}

/// How a judge line is drawn.
pub enum JudgeLineKind {
    Normal,
    Texture(String),
    Text(Anim<String>),
}

/// A judge line: its transform, scroll height over time, notes, look and
/// colour, and the index of the line it moves with, if any.
pub struct JudgeLine {
    pub object: Object,
    pub height: Anim<i64>,
    pub notes: Vec<Note>,
    pub kind: JudgeLineKind,
    pub color: Anim<Color>,
    pub parent: Option<usize>,
    pub show_below: bool,
}

/// A chart: the offset of its music (nanoseconds) and its judge lines.
pub struct Chart {
    pub offset: i64,
    pub lines: Vec<JudgeLine>,
}

} // verus!
