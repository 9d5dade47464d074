//! The settings of the viewer and the bookkeeping of a generation run: which
//! expressions are drawn, and whether the last run was valid.
use vstd::prelude::*;

verus! {

/// How the camera moves.
#[derive(Debug, Clone, Copy, PartialEq, Eq, Structural)]
pub enum CameraMode {
    AutoOrbit,
    Manual,
}

/// Which guides are drawn around the voxels.
#[derive(Debug, Clone, PartialEq, Eq, Structural)]
pub struct ShowAxesPlanes {
    pub show_axes: bool,
    pub show_ground_grid: bool,
    pub show_planes: bool,
}

impl Default for ShowAxesPlanes {
    /// The axes are shown; the ground grid and the planes are not.
    fn default() -> (r: Self)
        ensures
            r.show_axes,
            !r.show_ground_grid,
            !r.show_planes,
    {
        ShowAxesPlanes { show_axes: true, show_ground_grid: false, show_planes: false }
    }
}

/// Whether the voxels are generated again on every frame.
#[derive(Debug, Clone, Copy, PartialEq, Eq, Structural)]
pub struct RegenerateEveryFrame {
    pub enabled: bool,
}

/// One expression of the scene, with the color of its surface.
#[derive(Debug)]
pub struct ExpressionEntry {
    pub expr: String,
    pub color: (u8, u8, u8),
    pub enabled: bool,
}

impl Clone for ExpressionEntry {
    fn clone(&self) -> (r: Self)
        ensures
            r.expr@ == self.expr@,
            r.color == self.color,
            r.enabled == self.enabled,
    {
        ExpressionEntry { expr: self.expr.clone(), color: self.color, enabled: self.enabled }
    }
}

/// Calls `rand::random` for a color; nothing is promised of the color that
/// comes back.
#[verifier::external_body]
fn random_color() -> (u8, u8, u8) {
    rand::random()
}

/// The expression a new entry starts with.
pub open spec fn default_expression() -> Seq<char> {
    "x^2 + z * y - 64.0"@
}

impl Default for ExpressionEntry {
    /// An enabled entry for `x^2 + z * y - 64.0`, in a random color.
    fn default() -> (r: Self)
        ensures
            r.expr@ == default_expression(),
            r.enabled,
    {
        ExpressionEntry {
            expr: "x^2 + z * y - 64.0".to_owned(),
            color: random_color(),
            enabled: true,
        }
    }
}

/// The expressions of the scene, in the order they are composed.
#[derive(Debug)]
pub struct ExpressionConfig {
    pub entries: Vec<ExpressionEntry>,
}

impl Default for ExpressionConfig {
    /// A single default entry.
    fn default() -> (r: Self)
        ensures
            r.entries@.len() == 1,
            r.entries@[0].expr@ == default_expression(),
            r.entries@[0].enabled,
    {
        let mut entries: Vec<ExpressionEntry> = Vec::new();
        entries.push(ExpressionEntry::default());
        ExpressionConfig { entries }
    }
}

/// Whether the last generation run was valid, and the errors it met.
#[derive(Debug)]
pub struct ExpressionStatus {
    pub is_valid: bool,
    pub errors: Vec<String>,
}

impl Default for ExpressionStatus {
    /// Not valid, no errors.
    fn default() -> (r: Self)
        ensures
            !r.is_valid,
            r.errors@.len() == 0,
    {
        ExpressionStatus { is_valid: false, errors: Vec::new() }
    }
}

/// A white-space character: one of the 25 code points with Unicode's
/// `White_Space` property, which `str::trim` removes from both ends of a
/// text.
pub open spec fn is_white_space(c: char) -> bool {
    let u = c as u32;
    ||| 0x09 <= u <= 0x0D
    ||| u == 0x20
    ||| u == 0x85
    ||| u == 0xA0
    ||| u == 0x1680
    ||| 0x2000 <= u <= 0x200A
    ||| u == 0x2028
    ||| u == 0x2029
    ||| u == 0x202F
    ||| u == 0x205F
    ||| u == 0x3000
}

/// The text trims to nothing: every character is white space.
pub open spec fn is_blank(text: Seq<char>) -> bool {
    forall|i: int| 0 <= i < text.len() ==> is_white_space(#[trigger] text[i])
}

fn white_space(c: char) -> (r: bool)
    ensures
        r == is_white_space(c),
{
    let u = c as u32;
    (0x09 <= u && u <= 0x0D) || u == 0x20 || u == 0x85 || u == 0xA0 || u == 0x1680 || (0x2000
        <= u && u <= 0x200A) || u == 0x2028 || u == 0x2029 || u == 0x202F || u == 0x205F || u
        == 0x3000
}

/// Whether the text trims to nothing.
fn blank(text: &str) -> (r: bool)
    ensures
        r == is_blank(text@),
{
    let n = text.unicode_len();
    let mut i: usize = 0;
    while i < n
        invariant
            n == text@.len(),
            0 <= i <= n,
            forall|j: int| 0 <= j < i ==> is_white_space(#[trigger] text@[j]),
        decreases n - i,
    {
        if !white_space(text.get_char(i)) {
            return false;
        }
        i = i + 1;
    }
    true
}

/// The entry takes part in a run and has something to draw: it is enabled
/// and its expression is not blank.
pub open spec fn entry_is_active(e: ExpressionEntry) -> bool {
    e.enabled && !is_blank(e.expr@)
}

/// Whether some entry is enabled and not blank.
pub fn has_active_entry(entries: &Vec<ExpressionEntry>) -> (r: bool)
    ensures
        r == exists|i: int| 0 <= i < entries@.len() && entry_is_active(#[trigger] entries@[i]),
{
    let mut i: usize = 0;
    while i < entries.len()
        invariant
            0 <= i <= entries@.len(),
            forall|j: int| 0 <= j < i ==> !entry_is_active(#[trigger] entries@[j]),
        decreases entries@.len() - i,
    {
        let entry = &entries[i];
        if entry.enabled && !blank(entry.expr.as_str()) {
            assert(entry_is_active(entries@[i as int]));
            return true;
        }
        i = i + 1;
    }
    false
}

impl ExpressionStatus {
    /// A run starts: the errors of the last run are dropped; the validity
    /// stays until the run decides it.
    pub fn begin_run(&mut self)
        ensures
            final(self).errors@.len() == 0,
            final(self).is_valid == old(self).is_valid,
    {
        self.errors.clear();
    }

    /// An error of the run: the run is not valid, and the message is kept.
    pub fn record_error(&mut self, message: String)
        ensures
            !final(self).is_valid,
            final(self).errors@ == old(self).errors@.push(message),
    {
        self.is_valid = false;
        self.errors.push(message);
    }

    /// The end of a run that reached the grid: it is valid when it met no
    /// error and some entry is active; otherwise the validity stays as it was.
    pub fn settle(&mut self, entries: &Vec<ExpressionEntry>)
        ensures
            final(self).errors@ == old(self).errors@,
            final(self).is_valid == (old(self).is_valid || (old(self).errors@.len() == 0 && exists|
                i: int,
            | 0 <= i < entries@.len() && entry_is_active(#[trigger] entries@[i]))),
    {
        if self.errors.is_empty() && has_active_entry(entries) {
            self.is_valid = true;
        }
    }
}

} // verus!
