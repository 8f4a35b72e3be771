//! The state of an analysis session: the loaded frames, the frame shown, the
//! filter, the extraction mask and the display settings.
use vstd::prelude::*;
use vstd::arithmetic::div_mod::{lemma_small_mod, lemma_mod_self_0};
use crate::analysis::filters::{FilterMode, lemma_next_prev_inverse};
use crate::analysis::pixels::{ImageView, RgbaImage};

verus! {

/// The colour scheme of the interface.
#[derive(Copy, Clone, Debug, PartialEq, Eq, Structural)]
pub enum ThemeMode {
    System,
    Light,
    Dark,
}

impl ThemeMode {
    /// The index of the scheme: 0 system, 1 light, 2 dark.
    pub open spec fn index(self) -> i32 {
        match self {
            ThemeMode::System => 0,
            ThemeMode::Light => 1,
            ThemeMode::Dark => 2,
        }
    }

    /// The scheme that toggling moves to: system, light, dark, and back to system.
    pub open spec fn toggled(self) -> ThemeMode {
        match self {
            ThemeMode::System => ThemeMode::Light,
            ThemeMode::Light => ThemeMode::Dark,
            ThemeMode::Dark => ThemeMode::System,
        }
    }

    /// The scheme after a toggle.
    pub fn next(&self) -> (m: ThemeMode)
        ensures
            m == self.toggled(),
    {
        match self {
            ThemeMode::System => ThemeMode::Light,
            ThemeMode::Light => ThemeMode::Dark,
            ThemeMode::Dark => ThemeMode::System,
        }
    }
}

/// Three toggles bring the scheme back.
pub proof fn lemma_theme_cycle(m: ThemeMode)
    ensures
        m.toggled().toggled().toggled() == m,
        m.toggled() != m,
{
}

/// The value of a session state.
pub struct StateView {
    pub frames: Seq<ImageView>,
    pub index: nat,
    pub filter: FilterMode,
    pub file_name: Seq<char>,
    pub extract_mask: u32,
    pub is_playing: bool,
    pub show_mask_overlay: bool,
    pub theme_mode: ThemeMode,
}

/// The frame after frame `index` of `count`, the last wrapping to the first.
pub open spec fn next_index(count: nat, index: nat) -> nat {
    if count == 0 {
        index
    } else {
        ((index + 1) % count) as nat
    }
}

/// The frame before frame `index` of `count`, the first wrapping to the last.
pub open spec fn prev_index(count: nat, index: nat) -> nat {
    if count == 0 {
        index
    } else if index == 0 {
        (count - 1) as nat
    } else {
        (index - 1) as nat
    }
}

/// `mask` with bit `idx` set (`checked`) or cleared; unchanged when `idx`
/// is not a bit of a `u32`.
pub open spec fn mask_with_bit(mask: u32, idx: i32, checked: bool) -> u32 {
    if 0 <= idx < 32 {
        if checked {
            mask | (1u32 << (idx as u32))
        } else {
            mask & !(1u32 << (idx as u32))
        }
    } else {
        mask
    }
}

/// A session: the frames of the loaded image and how they are shown.
pub struct AppState {
    frames: Vec<RgbaImage>,
    index: usize,
    filter: FilterMode,
    file_name: String,
    extract_mask: u32,
    is_playing: bool,
    show_mask_overlay: bool,
    theme_mode: ThemeMode,
}

impl View for AppState {
    type V = StateView;

    closed spec fn view(&self) -> StateView {
        StateView {
            frames: self.frames@.map_values(|f: RgbaImage| f@),
            index: self.index as nat,
            filter: self.filter,
            file_name: self.file_name@,
            extract_mask: self.extract_mask,
            is_playing: self.is_playing,
            show_mask_overlay: self.show_mask_overlay,
            theme_mode: self.theme_mode,
        }
    }
}

impl StateView {
    /// The frame shown is one of the frames (the first when there are none),
    /// and the filter is a well-formed mode.
    pub open spec fn wf(self) -> bool {
        &&& (self.index < self.frames.len() || (self.frames.len() == 0 && self.index == 0))
        &&& self.filter.wf()
    }
}

impl AppState {
    #[verifier::type_invariant]
    closed spec fn consistent(self) -> bool {
        &&& (self.index < self.frames@.len() || (self.frames@.len() == 0 && self.index == 0))
        &&& self.filter.wf()
    }

    /// An empty session: no frames, the normal filter, no mask bits, nothing
    /// playing, no overlay, the system colour scheme.
    pub fn new() -> (s: AppState)
        ensures
            s@ == AppState::initial(),
    {
        AppState::default()
    }

    /// The value of an empty session.
    pub open spec fn initial() -> StateView {
        StateView {
            frames: Seq::empty(),
            index: 0,
            filter: FilterMode::Normal,
            file_name: Seq::empty(),
            extract_mask: 0,
            is_playing: false,
            show_mask_overlay: false,
            theme_mode: ThemeMode::System,
        }
    }

    /// Shows the frames of a newly loaded file: the first frame, the normal
    /// filter, playback stopped. The mask, the overlay and the theme stay.
    pub fn set_frames(&mut self, frames: Vec<RgbaImage>, file_name: String)
        ensures
            final(self)@ == (StateView {
                frames: frames@.map_values(|f: RgbaImage| f@),
                index: 0,
                filter: FilterMode::Normal,
                file_name: file_name@,
                is_playing: false,
                ..old(self)@
            }),
    {
        proof {
            use_type_invariant(&*self);
        }
        self.index = 0;
        self.frames = frames;
        self.filter = FilterMode::Normal;
        self.file_name = file_name;
        self.is_playing = false;
    }

    /// The frame shown, if any.
    pub fn current_frame(&self) -> (f: Option<&RgbaImage>)
        ensures
            match f {
                Some(img) => self@.index < self@.frames.len() && img@ == self@.frames[self@.index as int],
                None => self@.frames.len() == 0,
            },
    {
        proof {
            use_type_invariant(self);
        }
        if self.index < self.frames.len() {
            Some(&self.frames[self.index])
        } else {
            None
        }
    }

    pub fn frame_count(&self) -> (n: usize)
        ensures
            n == self@.frames.len(),
    {
        self.frames.len()
    }

    pub fn frame_index(&self) -> (i: usize)
        ensures
            i == self@.index,
    {
        self.index
    }

    pub fn filter(&self) -> (m: FilterMode)
        ensures
            m == self@.filter,
            m.wf(),
    {
        proof {
            use_type_invariant(self);
        }
        self.filter
    }

    pub fn file_name(&self) -> (name: &str)
        ensures
            name@ == self@.file_name,
    {
        self.file_name.as_str()
    }

    pub fn is_playing(&self) -> (p: bool)
        ensures
            p == self@.is_playing,
    {
        self.is_playing
    }

    pub fn set_playing(&mut self, playing: bool)
        ensures
            final(self)@ == (StateView { is_playing: playing, ..old(self)@ }),
    {
        proof {
            use_type_invariant(&*self);
        }
        self.is_playing = playing;
    }

    pub fn extract_mask(&self) -> (mask: u32)
        ensures
            mask == self@.extract_mask,
    {
        self.extract_mask
    }

    pub fn show_mask_overlay(&self) -> (shown: bool)
        ensures
            shown == self@.show_mask_overlay,
    {
        self.show_mask_overlay
    }

    pub fn set_show_mask_overlay(&mut self, enabled: bool)
        ensures
            final(self)@ == (StateView { show_mask_overlay: enabled, ..old(self)@ }),
    {
        proof {
            use_type_invariant(&*self);
        }
        self.show_mask_overlay = enabled;
    }

    pub fn theme_mode(&self) -> (m: ThemeMode)
        ensures
            m == self@.theme_mode,
    {
        self.theme_mode
    }

    pub fn set_theme_mode(&mut self, mode: ThemeMode)
        ensures
            final(self)@ == (StateView { theme_mode: mode, ..old(self)@ }),
    {
        proof {
            use_type_invariant(&*self);
        }
        self.theme_mode = mode;
    }

    /// The index of the colour scheme: 0 system, 1 light, 2 dark.
    pub fn theme_index(&self) -> (i: i32)
        ensures
            i == self@.theme_mode.index(),
    {
        match self.theme_mode {
            ThemeMode::System => 0,
            ThemeMode::Light => 1,
            ThemeMode::Dark => 2,
        }
    }
}

impl Default for AppState {
    fn default() -> (s: AppState)
        ensures
            s@ == AppState::initial(),
    {
        let s = AppState {
            frames: Vec::new(),
            index: 0,
            filter: FilterMode::Normal,
            file_name: String::new(),
            extract_mask: 0,
            is_playing: false,
            show_mask_overlay: false,
            theme_mode: ThemeMode::System,
        };
        assert(s@.frames =~= Seq::<ImageView>::empty());
        s
    }
}

/// Moving through the frames of a session.
pub trait FrameNavigation {
    fn next_frame(&mut self);

    fn prev_frame(&mut self);
}

impl FrameNavigation for AppState {
    /// Shows the next frame, the last wrapping to the first.
    fn next_frame(&mut self)
        ensures
            final(self)@ == (StateView { index: next_index(old(self)@.frames.len(), old(self)@.index), ..old(self)@ }),
    {
        proof {
            use_type_invariant(&*self);
        }
        if self.frames.len() == 0 {
            return;
        }
        self.index = (self.index + 1) % self.frames.len();
    }

    /// Shows the previous frame, the first wrapping to the last.
    fn prev_frame(&mut self)
        ensures
            final(self)@ == (StateView { index: prev_index(old(self)@.frames.len(), old(self)@.index), ..old(self)@ }),
    {
        proof {
            use_type_invariant(&*self);
        }
        if self.frames.len() == 0 {
            return;
        }
        if self.index == 0 {
            self.index = self.frames.len() - 1;
        } else {
            self.index = self.index - 1;
        }
    }
}

/// Moving through the filters of a session.
pub trait FilterNavigation {
    fn next_filter(&mut self);

    fn prev_filter(&mut self);
}

impl FilterNavigation for AppState {
    /// Moves to the next filter of the cycle.
    fn next_filter(&mut self)
        ensures
            final(self)@ == (StateView { filter: old(self)@.filter.next_mode(), ..old(self)@ }),
    {
        proof {
            use_type_invariant(&*self);
            crate::analysis::filters::lemma_next_advances(self.filter);
        }
        self.filter = self.filter.next();
    }

    /// Moves to the previous filter of the cycle.
    fn prev_filter(&mut self)
        ensures
            final(self)@ == (StateView { filter: old(self)@.filter.prev_mode(), ..old(self)@ }),
    {
        proof {
            use_type_invariant(&*self);
            lemma_next_prev_inverse(self.filter);
        }
        self.filter = self.filter.prev();
    }
}

/// Choosing the bits to extract.
pub trait MaskUpdate {
    fn set_mask_bit(&mut self, idx: i32, checked: bool);
}

impl MaskUpdate for AppState {
    /// Sets (`checked`) or clears bit `idx` of the extraction mask; an index
    /// outside 0..32 changes nothing.
    fn set_mask_bit(&mut self, idx: i32, checked: bool)
        ensures
            final(self)@ == (StateView {
                extract_mask: mask_with_bit(old(self)@.extract_mask, idx, checked),
                ..old(self)@
            }),
    {
        proof {
            use_type_invariant(&*self);
        }
        if !(0 <= idx && idx < 32) {
            return;
        }
        let bit = 1u32 << (idx as u32);
        if checked {
            self.extract_mask = self.extract_mask | bit;
        } else {
            self.extract_mask = self.extract_mask & !bit;
        }
    }
}

/// Stepping forward then back through the frames, or back then forward,
/// returns to the same frame.
pub proof fn lemma_frame_steps_inverse(count: nat, index: nat)
    requires
        index < count,
    ensures
        prev_index(count, next_index(count, index)) == index,
        next_index(count, prev_index(count, index)) == index,
        next_index(count, index) < count,
        prev_index(count, index) < count,
{
    if index + 1 < count {
        lemma_small_mod((index + 1) as nat, count);
    } else {
        lemma_mod_self_0(count as int);
    }
    lemma_small_mod(index, count);
    lemma_mod_self_0(count as int);
    if index > 0 {
        lemma_small_mod((index - 1) as nat, count);
    } else {
        lemma_small_mod((count - 1) as nat, count);
    }
}

/// After setting or clearing a mask bit, that bit reads as set or clear and
/// every other bit is unchanged.
pub proof fn lemma_mask_bit_effect(mask: u32, idx: i32, checked: bool, j: u32)
    requires
        0 <= idx < 32,
        j < 32,
    ensures
        (mask_with_bit(mask, idx, checked) >> j) & 1u32 == if j == idx as u32 {
            if checked { 1u32 } else { 0u32 }
        } else {
            (mask >> j) & 1u32
        },
{
    let i = idx as u32;
    if checked {
        assert((mask | (1u32 << i)) >> j & 1u32 == if j == i { 1u32 } else { (mask >> j) & 1u32 }) by (bit_vector)
            requires i < 32, j < 32;
    } else {
        assert((mask & !(1u32 << i)) >> j & 1u32 == if j == i { 0u32 } else { (mask >> j) & 1u32 }) by (bit_vector)
            requires i < 32, j < 32;
    }
}

/// Setting a bit and then clearing it again restores a mask where it was clear.
pub proof fn lemma_mask_set_then_clear(mask: u32, idx: i32)
    requires
        0 <= idx < 32,
        (mask >> (idx as u32)) & 1u32 == 0,
    ensures
        mask_with_bit(mask_with_bit(mask, idx, true), idx, false) == mask,
{
    let i = idx as u32;
    assert((mask | (1u32 << i)) & !(1u32 << i) == mask) by (bit_vector)
        requires i < 32, (mask >> i) & 1u32 == 0;
}

} // verus!
