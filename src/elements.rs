use vstd::prelude::*;

verus! {

/// The kinds of path commands.
#[derive(Debug, Copy, Clone, PartialEq, Eq, Structural)]
pub enum PathElementLabel {
    Move,
    Line,
    Horizontal,
    Vertical,
    CubicBezier,
    SmoothCubicBezier,
    QuadraticBezier,
    SmoothQuadraticBezier,
    Arc,
    End,
}

/// A path command: its kind, and whether its operands are offsets from the cursor.
#[derive(Debug, Copy, Clone, PartialEq, Eq, Structural)]
pub struct PathElementCommand {
    pub relative: bool,
    pub label: PathElementLabel,
}

/// The label that a command letter stands for, whatever its case.
pub open spec fn label_of(ch: char) -> Option<PathElementLabel> {
    if ch == 'm' || ch == 'M' {
        Some(PathElementLabel::Move)
    } else if ch == 'l' || ch == 'L' {
        Some(PathElementLabel::Line)
    } else if ch == 'h' || ch == 'H' {
        Some(PathElementLabel::Horizontal)
    } else if ch == 'v' || ch == 'V' {
        Some(PathElementLabel::Vertical)
    } else if ch == 'c' || ch == 'C' {
        Some(PathElementLabel::CubicBezier)
    } else if ch == 's' || ch == 'S' {
        Some(PathElementLabel::SmoothCubicBezier)
    } else if ch == 'q' || ch == 'Q' {
        Some(PathElementLabel::QuadraticBezier)
    } else if ch == 't' || ch == 'T' {
        Some(PathElementLabel::SmoothQuadraticBezier)
    } else if ch == 'a' || ch == 'A' {
        Some(PathElementLabel::Arc)
    } else if ch == 'z' || ch == 'Z' {
        Some(PathElementLabel::End)
    } else {
        None
    }
}

/// The command that a letter decodes to: lower case is relative, but the
/// sub-path close, which has no operands, never is.
pub open spec fn command_of(ch: char) -> Option<PathElementCommand> {
    match label_of(ch) {
        Some(label) => Some(
            PathElementCommand {
                relative: label != PathElementLabel::End && 'a' <= ch && ch <= 'z',
                label,
            },
        ),
        None => None,
    }
}

impl PathElementCommand {
    pub open spec fn is_relative(self) -> bool {
        self.relative
    }

    pub open spec fn kind(self) -> PathElementLabel {
        self.label
    }

    /// The command that a bare number after this one repeats: a move
    /// repeats as a line, every other command as itself.
    pub open spec fn repeated(self) -> PathElementCommand {
        if self.label == PathElementLabel::Move {
            PathElementCommand { relative: self.relative, label: PathElementLabel::Line }
        } else {
            self
        }
    }

    pub fn new(relative: bool, label: PathElementLabel) -> (r: Self)
        ensures
            r.is_relative() == relative,
            r.kind() == label,
    {
        Self { relative, label }
    }

    pub fn from_ch(ch: char) -> (r: Option<Self>)
        ensures
            r == command_of(ch),
    {
        let relative = 'a' <= ch && ch <= 'z';
        let label = if ch == 'm' || ch == 'M' {
            PathElementLabel::Move
        } else if ch == 'l' || ch == 'L' {
            PathElementLabel::Line
        } else if ch == 'h' || ch == 'H' {
            PathElementLabel::Horizontal
        } else if ch == 'v' || ch == 'V' {
            PathElementLabel::Vertical
        } else if ch == 'c' || ch == 'C' {
            PathElementLabel::CubicBezier
        } else if ch == 's' || ch == 'S' {
            PathElementLabel::SmoothCubicBezier
        } else if ch == 'q' || ch == 'Q' {
            PathElementLabel::QuadraticBezier
        } else if ch == 't' || ch == 'T' {
            PathElementLabel::SmoothQuadraticBezier
        } else if ch == 'a' || ch == 'A' {
            PathElementLabel::Arc
        } else if ch == 'z' || ch == 'Z' {
            return Some(Self::new(false, PathElementLabel::End));
        } else {
            return None;
        };
        Some(Self::new(relative, label))
    }

    pub fn relative(&self) -> (r: bool)
        ensures
            r == self.is_relative(),
    {
        self.relative
    }

    pub fn label(&self) -> (r: PathElementLabel)
        ensures
            r == self.kind(),
    {
        self.label
    }

    pub fn updated(&self) -> (r: Self)
        ensures
            r == self.repeated(),
    {
        match self.label {
            PathElementLabel::Move => Self::new(self.relative, PathElementLabel::Line),
            _ => *self,
        }
    }
}

} // verus!
