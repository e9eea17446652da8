//! Keys, key presses with their modifiers, and sequences of them.

use vstd::prelude::*;

verus! {

/// A modifier key pressed on its own.
#[derive(Clone, Copy, PartialEq, Eq, Structural, PartialOrd, Ord, Hash, Debug)]
pub enum ModifierKeyCode {
    LeftShift,
    LeftControl,
    LeftAlt,
    LeftSuper,
    LeftHyper,
    LeftMeta,
    RightShift,
    RightControl,
    RightAlt,
    RightSuper,
    RightHyper,
    RightMeta,
    IsoLevel3Shift,
    IsoLevel5Shift,
}

/// A media key.
#[derive(Clone, Copy, PartialEq, Eq, Structural, PartialOrd, Ord, Hash, Debug)]
pub enum MediaKeyCode {
    Play,
    Pause,
    PlayPause,
    Reverse,
    Stop,
    FastForward,
    Rewind,
    TrackNext,
    TrackPrevious,
    Record,
    LowerVolume,
    RaiseVolume,
    MuteVolume,
}

/// A key of the keyboard.
#[derive(Clone, Copy, PartialEq, Eq, Structural, PartialOrd, Ord, Hash, Debug)]
pub enum KeyCode {
    Backspace,
    Enter,
    Left,
    Right,
    Up,
    Down,
    Home,
    End,
    PageUp,
    PageDown,
    Tab,
    BackTab,
    Delete,
    Insert,
    F(u8),
    Char(char),
    Null,
    Esc,
    CapsLock,
    ScrollLock,
    NumLock,
    PrintScreen,
    Pause,
    Menu,
    KeypadBegin,
    Media(MediaKeyCode),
    Modifier(ModifierKeyCode),
}

/// The bit of the shift modifier.
pub const SHIFT: u8 = 1;

/// The bit of the control modifier.
pub const CONTROL: u8 = 2;

/// The bit of the alt modifier.
pub const ALT: u8 = 4;

/// The bit of the super modifier.
pub const SUPER: u8 = 8;

/// The bit of the hyper modifier.
pub const HYPER: u8 = 16;

/// The bit of the meta modifier.
pub const META: u8 = 32;

/// The set of modifiers held down with a key, one bit each.
#[derive(Clone, Copy, PartialEq, Eq, Structural, PartialOrd, Ord, Hash, Debug)]
pub struct KeyModifiers {
    /// The bits of the modifiers that are held down.
    pub bits: u8,
}

impl KeyModifiers {
    /// No modifier.
    pub fn none() -> (m: Self)
        ensures
            m.bits == 0,
    {
        KeyModifiers { bits: 0 }
    }

    /// Shift alone.
    pub fn shift() -> (m: Self)
        ensures
            m.bits == SHIFT,
    {
        KeyModifiers { bits: SHIFT }
    }

    /// Control alone.
    pub fn control() -> (m: Self)
        ensures
            m.bits == CONTROL,
    {
        KeyModifiers { bits: CONTROL }
    }

    /// Alt alone.
    pub fn alt() -> (m: Self)
        ensures
            m.bits == ALT,
    {
        KeyModifiers { bits: ALT }
    }

    /// Super alone.
    pub fn super_key() -> (m: Self)
        ensures
            m.bits == SUPER,
    {
        KeyModifiers { bits: SUPER }
    }

    /// Hyper alone.
    pub fn hyper() -> (m: Self)
        ensures
            m.bits == HYPER,
    {
        KeyModifiers { bits: HYPER }
    }

    /// Meta alone.
    pub fn meta() -> (m: Self)
        ensures
            m.bits == META,
    {
        KeyModifiers { bits: META }
    }

    /// Whether no modifier is held down.
    pub fn is_empty(&self) -> (r: bool)
        ensures
            r == (self.bits == 0),
    {
        self.bits == 0
    }
}

/// The modifier that a modifier key stands for, by its bit; none for the
/// keys that shift a keyboard level.
pub open spec fn modifier_bit(key: ModifierKeyCode) -> Option<u8> {
    match key {
        ModifierKeyCode::LeftShift | ModifierKeyCode::RightShift => Some(SHIFT),
        ModifierKeyCode::LeftControl | ModifierKeyCode::RightControl => Some(CONTROL),
        ModifierKeyCode::LeftAlt | ModifierKeyCode::RightAlt => Some(ALT),
        ModifierKeyCode::LeftSuper | ModifierKeyCode::RightSuper => Some(SUPER),
        ModifierKeyCode::LeftHyper | ModifierKeyCode::RightHyper => Some(HYPER),
        ModifierKeyCode::LeftMeta | ModifierKeyCode::RightMeta => Some(META),
        ModifierKeyCode::IsoLevel3Shift | ModifierKeyCode::IsoLevel5Shift => None,
    }
}

/// The number of a modifier key among the modifier keys.
pub open spec fn modifier_key_number(key: ModifierKeyCode) -> int {
    match key {
        ModifierKeyCode::LeftShift => 0,
        ModifierKeyCode::LeftControl => 1,
        ModifierKeyCode::LeftAlt => 2,
        ModifierKeyCode::LeftSuper => 3,
        ModifierKeyCode::LeftHyper => 4,
        ModifierKeyCode::LeftMeta => 5,
        ModifierKeyCode::RightShift => 6,
        ModifierKeyCode::RightControl => 7,
        ModifierKeyCode::RightAlt => 8,
        ModifierKeyCode::RightSuper => 9,
        ModifierKeyCode::RightHyper => 10,
        ModifierKeyCode::RightMeta => 11,
        ModifierKeyCode::IsoLevel3Shift => 12,
        ModifierKeyCode::IsoLevel5Shift => 13,
    }
}

/// The number of a media key among the media keys.
pub open spec fn media_key_number(key: MediaKeyCode) -> int {
    match key {
        MediaKeyCode::Play => 0,
        MediaKeyCode::Pause => 1,
        MediaKeyCode::PlayPause => 2,
        MediaKeyCode::Reverse => 3,
        MediaKeyCode::Stop => 4,
        MediaKeyCode::FastForward => 5,
        MediaKeyCode::Rewind => 6,
        MediaKeyCode::TrackNext => 7,
        MediaKeyCode::TrackPrevious => 8,
        MediaKeyCode::Record => 9,
        MediaKeyCode::LowerVolume => 10,
        MediaKeyCode::RaiseVolume => 11,
        MediaKeyCode::MuteVolume => 12,
    }
}

/// The number of the kind of a key.
pub open spec fn key_kind(key: KeyCode) -> int {
    match key {
        KeyCode::Backspace => 0,
        KeyCode::Enter => 1,
        KeyCode::Left => 2,
        KeyCode::Right => 3,
        KeyCode::Up => 4,
        KeyCode::Down => 5,
        KeyCode::Home => 6,
        KeyCode::End => 7,
        KeyCode::PageUp => 8,
        KeyCode::PageDown => 9,
        KeyCode::Tab => 10,
        KeyCode::BackTab => 11,
        KeyCode::Delete => 12,
        KeyCode::Insert => 13,
        KeyCode::F(_) => 14,
        KeyCode::Char(_) => 15,
        KeyCode::Null => 16,
        KeyCode::Esc => 17,
        KeyCode::CapsLock => 18,
        KeyCode::ScrollLock => 19,
        KeyCode::NumLock => 20,
        KeyCode::PrintScreen => 21,
        KeyCode::Pause => 22,
        KeyCode::Menu => 23,
        KeyCode::KeypadBegin => 24,
        KeyCode::Media(_) => 25,
        KeyCode::Modifier(_) => 26,
    }
}

/// What a key carries beyond its kind, as a number below 2^32.
pub open spec fn key_detail(key: KeyCode) -> int {
    match key {
        KeyCode::F(n) => n as int,
        KeyCode::Char(c) => c as u32 as int,
        KeyCode::Media(m) => media_key_number(m),
        KeyCode::Modifier(m) => modifier_key_number(m),
        _ => 0,
    }
}

/// One key press to match: a key with the exact set of modifiers that must
/// be held down with it.
#[derive(Clone, Copy, PartialEq, Eq, Structural, PartialOrd, Ord, Hash, Debug)]
pub struct KeyBind {
    /// The modifiers that have to be held down, no more and no less.
    pub modifiers: KeyModifiers,
    /// The key that has to be pressed.
    pub key: KeyCode,
}

/// A key press as the terminal reports it.
#[derive(Clone, Copy, PartialEq, Eq, Structural, Hash, Debug)]
pub struct KeyEvent {
    /// The key that was pressed.
    pub code: KeyCode,
    /// The modifiers that were held down with it.
    pub modifiers: KeyModifiers,
}

/// The number of a modifier key among the modifier keys.
fn number_of_modifier_key(key: ModifierKeyCode) -> (n: u64)
    ensures
        n == modifier_key_number(key),
{
    match key {
        ModifierKeyCode::LeftShift => 0,
        ModifierKeyCode::LeftControl => 1,
        ModifierKeyCode::LeftAlt => 2,
        ModifierKeyCode::LeftSuper => 3,
        ModifierKeyCode::LeftHyper => 4,
        ModifierKeyCode::LeftMeta => 5,
        ModifierKeyCode::RightShift => 6,
        ModifierKeyCode::RightControl => 7,
        ModifierKeyCode::RightAlt => 8,
        ModifierKeyCode::RightSuper => 9,
        ModifierKeyCode::RightHyper => 10,
        ModifierKeyCode::RightMeta => 11,
        ModifierKeyCode::IsoLevel3Shift => 12,
        ModifierKeyCode::IsoLevel5Shift => 13,
    }
}

/// The number of a media key among the media keys.
fn number_of_media_key(key: MediaKeyCode) -> (n: u64)
    ensures
        n == media_key_number(key),
{
    match key {
        MediaKeyCode::Play => 0,
        MediaKeyCode::Pause => 1,
        MediaKeyCode::PlayPause => 2,
        MediaKeyCode::Reverse => 3,
        MediaKeyCode::Stop => 4,
        MediaKeyCode::FastForward => 5,
        MediaKeyCode::Rewind => 6,
        MediaKeyCode::TrackNext => 7,
        MediaKeyCode::TrackPrevious => 8,
        MediaKeyCode::Record => 9,
        MediaKeyCode::LowerVolume => 10,
        MediaKeyCode::RaiseVolume => 11,
        MediaKeyCode::MuteVolume => 12,
    }
}

/// The kind of a key and what it carries beyond its kind.
fn parts_of_key(key: KeyCode) -> (parts: (u64, u64))
    ensures
        parts.0 == key_kind(key),
        parts.1 == key_detail(key),
{
    match key {
        KeyCode::Backspace => (0, 0),
        KeyCode::Enter => (1, 0),
        KeyCode::Left => (2, 0),
        KeyCode::Right => (3, 0),
        KeyCode::Up => (4, 0),
        KeyCode::Down => (5, 0),
        KeyCode::Home => (6, 0),
        KeyCode::End => (7, 0),
        KeyCode::PageUp => (8, 0),
        KeyCode::PageDown => (9, 0),
        KeyCode::Tab => (10, 0),
        KeyCode::BackTab => (11, 0),
        KeyCode::Delete => (12, 0),
        KeyCode::Insert => (13, 0),
        KeyCode::F(n) => (14, n as u64),
        KeyCode::Char(c) => (15, c as u32 as u64),
        KeyCode::Null => (16, 0),
        KeyCode::Esc => (17, 0),
        KeyCode::CapsLock => (18, 0),
        KeyCode::ScrollLock => (19, 0),
        KeyCode::NumLock => (20, 0),
        KeyCode::PrintScreen => (21, 0),
        KeyCode::Pause => (22, 0),
        KeyCode::Menu => (23, 0),
        KeyCode::KeypadBegin => (24, 0),
        KeyCode::Media(m) => (25, number_of_media_key(m)),
        KeyCode::Modifier(m) => (26, number_of_modifier_key(m)),
    }
}

impl KeyBind {
    /// Whether the press is a modifier key alone: the key is a modifier key
    /// and the modifier it stands for is the only one held down.
    pub open spec fn only_modifiers(self) -> bool {
        self.key matches KeyCode::Modifier(m) && modifier_bit(m) == Some(self.modifiers.bits)
    }

    /// The press as one number: the modifiers, the kind of the key and what
    /// the key carries, side by side.
    pub open spec fn spec_code(self) -> int {
        self.modifiers.bits * 0x100_0000_0000 + key_kind(self.key) * 0x1_0000_0000 + key_detail(
            self.key,
        )
    }

    /// Checks whether the press is a modifier key alone.
    pub fn is_only_modifiers(&self) -> (r: bool)
        ensures
            r == self.only_modifiers(),
    {
        match self.key {
            KeyCode::Modifier(key) => {
                let bits = self.modifiers.bits;
                match key {
                    ModifierKeyCode::LeftShift | ModifierKeyCode::RightShift => bits == SHIFT,
                    ModifierKeyCode::LeftControl | ModifierKeyCode::RightControl => bits == CONTROL,
                    ModifierKeyCode::LeftAlt | ModifierKeyCode::RightAlt => bits == ALT,
                    ModifierKeyCode::LeftSuper | ModifierKeyCode::RightSuper => bits == SUPER,
                    ModifierKeyCode::LeftHyper | ModifierKeyCode::RightHyper => bits == HYPER,
                    ModifierKeyCode::LeftMeta | ModifierKeyCode::RightMeta => bits == META,
                    ModifierKeyCode::IsoLevel3Shift | ModifierKeyCode::IsoLevel5Shift => false,
                }
            },
            _ => false,
        }
    }

    /// Computes the press as one number.
    pub fn code(&self) -> (n: u64)
        ensures
            n == self.spec_code(),
    {
        let (kind, detail) = parts_of_key(self.key);
        let bits = self.modifiers.bits as u64;
        bits * 0x100_0000_0000 + kind * 0x1_0000_0000 + detail
    }

    /// Two presses with the same number are the same press.
    pub proof fn lemma_code_injective(a: KeyBind, b: KeyBind)
        requires
            a.spec_code() == b.spec_code(),
        ensures
            a == b,
    {
        let ka = key_kind(a.key);
        let kb = key_kind(b.key);
        let da = key_detail(a.key);
        let db = key_detail(b.key);
        assert(0 <= ka < 27 && 0 <= kb < 27);
        assert(0 <= da < 0x1_0000_0000 && 0 <= db < 0x1_0000_0000);
        assert(a.modifiers.bits == b.modifiers.bits);
        assert(ka == kb);
        assert(da == db);
        match a.key {
            KeyCode::Media(m) => {
                assert(b.key is Media);
            },
            KeyCode::Modifier(m) => {
                assert(b.key is Modifier);
            },
            KeyCode::Char(c) => {
                assert(b.key is Char);
            },
            KeyCode::F(n) => {
                assert(b.key is F);
            },
            _ => {},
        }
    }
}

/// Whether `n` is the number of a character.
pub open spec fn is_scalar(n: u32) -> bool {
    n <= 0xD7FF || (0xE000 <= n && n <= 0x10FFFF)
}

/// `char::from_u32` of the standard library: the character with the number
/// `n`, where `n` is the number of one. Nothing of this is proved.
#[verifier::external_body]
fn char_of(n: u32) -> (r: Option<char>)
    ensures
        r == (if is_scalar(n) {
            Some(n as char)
        } else {
            None
        }),
{
    char::from_u32(n)
}

/// The modifier key with the number `n`.
fn modifier_key_of(n: u64) -> (r: Option<ModifierKeyCode>)
    ensures
        match r {
            Some(key) => modifier_key_number(key) == n,
            None => forall|key: ModifierKeyCode| modifier_key_number(key) != n,
        },
{
    match n {
        0 => Some(ModifierKeyCode::LeftShift),
        1 => Some(ModifierKeyCode::LeftControl),
        2 => Some(ModifierKeyCode::LeftAlt),
        3 => Some(ModifierKeyCode::LeftSuper),
        4 => Some(ModifierKeyCode::LeftHyper),
        5 => Some(ModifierKeyCode::LeftMeta),
        6 => Some(ModifierKeyCode::RightShift),
        7 => Some(ModifierKeyCode::RightControl),
        8 => Some(ModifierKeyCode::RightAlt),
        9 => Some(ModifierKeyCode::RightSuper),
        10 => Some(ModifierKeyCode::RightHyper),
        11 => Some(ModifierKeyCode::RightMeta),
        12 => Some(ModifierKeyCode::IsoLevel3Shift),
        13 => Some(ModifierKeyCode::IsoLevel5Shift),
        _ => None,
    }
}

/// The media key with the number `n`.
fn media_key_of(n: u64) -> (r: Option<MediaKeyCode>)
    ensures
        match r {
            Some(key) => media_key_number(key) == n,
            None => forall|key: MediaKeyCode| media_key_number(key) != n,
        },
{
    match n {
        0 => Some(MediaKeyCode::Play),
        1 => Some(MediaKeyCode::Pause),
        2 => Some(MediaKeyCode::PlayPause),
        3 => Some(MediaKeyCode::Reverse),
        4 => Some(MediaKeyCode::Stop),
        5 => Some(MediaKeyCode::FastForward),
        6 => Some(MediaKeyCode::Rewind),
        7 => Some(MediaKeyCode::TrackNext),
        8 => Some(MediaKeyCode::TrackPrevious),
        9 => Some(MediaKeyCode::Record),
        10 => Some(MediaKeyCode::LowerVolume),
        11 => Some(MediaKeyCode::RaiseVolume),
        12 => Some(MediaKeyCode::MuteVolume),
        _ => None,
    }
}

/// The key of the kind `kind` that carries `detail`.
fn key_of_parts(kind: u64, detail: u64) -> (r: Option<KeyCode>)
    requires
        detail < 0x1_0000_0000,
    ensures
        match r {
            Some(key) => key_kind(key) == kind && key_detail(key) == detail,
            None => forall|key: KeyCode| !(key_kind(key) == kind && key_detail(key) == detail),
        },
{
    if kind == 14 {
        if detail < 256 {
            Some(KeyCode::F(detail as u8))
        } else {
            None
        }
    } else if kind == 15 {
        match char_of(detail as u32) {
            Some(c) => Some(KeyCode::Char(c)),
            None => {
                assert forall|key: KeyCode| !(key_kind(key) == kind && key_detail(key)
                    == detail) by {
                    if let KeyCode::Char(c) = key {
                        assert(is_scalar(c as u32));
                    }
                }
                None
            },
        }
    } else if kind == 25 {
        match media_key_of(detail) {
            Some(m) => Some(KeyCode::Media(m)),
            None => None,
        }
    } else if kind == 26 {
        match modifier_key_of(detail) {
            Some(m) => Some(KeyCode::Modifier(m)),
            None => None,
        }
    } else if detail != 0 {
        None
    } else {
        match kind {
            0 => Some(KeyCode::Backspace),
            1 => Some(KeyCode::Enter),
            2 => Some(KeyCode::Left),
            3 => Some(KeyCode::Right),
            4 => Some(KeyCode::Up),
            5 => Some(KeyCode::Down),
            6 => Some(KeyCode::Home),
            7 => Some(KeyCode::End),
            8 => Some(KeyCode::PageUp),
            9 => Some(KeyCode::PageDown),
            10 => Some(KeyCode::Tab),
            11 => Some(KeyCode::BackTab),
            12 => Some(KeyCode::Delete),
            13 => Some(KeyCode::Insert),
            16 => Some(KeyCode::Null),
            17 => Some(KeyCode::Esc),
            18 => Some(KeyCode::CapsLock),
            19 => Some(KeyCode::ScrollLock),
            20 => Some(KeyCode::NumLock),
            21 => Some(KeyCode::PrintScreen),
            22 => Some(KeyCode::Pause),
            23 => Some(KeyCode::Menu),
            24 => Some(KeyCode::KeypadBegin),
            _ => None,
        }
    }
}

impl KeyBind {
    /// The press with the number `n`, where `n` is the number of a press:
    /// the press that `code` turns into `n`.
    pub fn from_code(n: u64) -> (r: Option<KeyBind>)
        ensures
            match r {
                Some(key) => key.spec_code() == n,
                None => forall|key: KeyBind| key.spec_code() != n,
            },
            forall|key: KeyBind| key.spec_code() == n ==> r == Some(key),
    {
        let bits = n / 0x100_0000_0000;
        let rest = n % 0x100_0000_0000;
        let kind = rest / 0x1_0000_0000;
        let detail = rest % 0x1_0000_0000;
        if bits >= 256 {
            proof {
                assert forall|key: KeyBind| key.spec_code() != n by {
                    lemma_code_parts(key);
                }
            }
            return None;
        }
        match key_of_parts(kind, detail) {
            Some(key) => {
                let found = KeyBind { modifiers: KeyModifiers { bits: bits as u8 }, key };
                proof {
                    assert forall|other: KeyBind| other.spec_code() == n implies other == found by {
                        KeyBind::lemma_code_injective(other, found);
                    }
                }
                Some(found)
            },
            None => {
                proof {
                    assert forall|key: KeyBind| key.spec_code() != n by {
                        lemma_code_parts(key);
                    }
                }
                None
            },
        }
    }
}

/// The number of a press falls apart into the modifiers, the kind of the key
/// and what the key carries.
pub proof fn lemma_code_parts(key: KeyBind)
    ensures
        0 <= key.spec_code() <= u64::MAX,
        key.spec_code() / 0x100_0000_0000 == key.modifiers.bits,
        (key.spec_code() % 0x100_0000_0000) / 0x1_0000_0000 == key_kind(key.key),
        (key.spec_code() % 0x100_0000_0000) % 0x1_0000_0000 == key_detail(key.key),
{
    assert(0 <= key_kind(key.key) < 27);
    assert(0 <= key_detail(key.key) < 0x1_0000_0000);
}

/// The presses of a sequence, each as one number.
pub open spec fn codes_of(keys: Seq<KeyBind>) -> Seq<u64> {
    Seq::new(keys.len(), |i: int| keys[i].spec_code() as u64)
}

/// Two sequences of presses with the same numbers are the same sequence.
pub proof fn lemma_codes_injective(a: Seq<KeyBind>, b: Seq<KeyBind>)
    requires
        codes_of(a) == codes_of(b),
    ensures
        a == b,
{
    assert(a.len() == codes_of(a).len());
    assert(b.len() == codes_of(b).len());
    assert forall|i: int| 0 <= i < a.len() implies a[i] == b[i] by {
        lemma_code_parts(a[i]);
        lemma_code_parts(b[i]);
        assert(codes_of(a)[i] == a[i].spec_code() as u64);
        assert(codes_of(b)[i] == b[i].spec_code() as u64);
        KeyBind::lemma_code_injective(a[i], b[i]);
    }
    assert(a =~= b);
}

/// An ordered sequence of key presses that together trigger one action.
#[derive(Clone, PartialEq, Eq, PartialOrd, Ord, Hash, Debug)]
pub struct Chord {
    /// The presses, in the order in which they have to be made.
    pub keys: Vec<KeyBind>,
}

impl Chord {
    /// The presses of the chord, in order.
    pub open spec fn view(&self) -> Seq<KeyBind> {
        self.keys@
    }

    /// Makes a chord of one press.
    pub fn single(key: KeyBind) -> (chord: Self)
        ensures
            chord@ == seq![key],
    {
        let mut keys: Vec<KeyBind> = Vec::new();
        keys.push(key);
        Chord { keys }
    }

    /// The number of presses.
    pub fn len(&self) -> (n: usize)
        ensures
            n == self@.len(),
    {
        self.keys.len()
    }

    /// Whether the two chords are the same presses in the same order.
    pub fn same(&self, other: &Chord) -> (r: bool)
        ensures
            r == (self@ == other@),
    {
        if self.keys.len() != other.keys.len() {
            return false;
        }
        let mut i: usize = 0;
        while i < self.keys.len()
            invariant
                i <= self.keys@.len(),
                self.keys@.len() == other.keys@.len(),
                forall|j: int| 0 <= j < i ==> self.keys@[j] == other.keys@[j],
            decreases self.keys@.len() - i,
        {
            if self.keys[i] != other.keys[i] {
                return false;
            }
            i += 1;
        }
        proof {
            assert(self@ =~= other@);
        }
        true
    }

    /// Copies the chord.
    pub fn duplicate(&self) -> (copy: Self)
        ensures
            copy@ == self@,
    {
        let mut keys: Vec<KeyBind> = Vec::new();
        let mut i: usize = 0;
        while i < self.keys.len()
            invariant
                i <= self.keys@.len(),
                keys@ == self.keys@.subrange(0, i as int),
            decreases self.keys@.len() - i,
        {
            keys.push(self.keys[i]);
            proof {
                assert(keys@ =~= self.keys@.subrange(0, i + 1));
            }
            i += 1;
        }
        proof {
            assert(keys@ =~= self.keys@);
        }
        Chord { keys }
    }

    /// The chord whose presses have the numbers `codes`, where each of them
    /// is the number of a press.
    pub fn from_codes(codes: &Vec<u64>) -> (r: Option<Chord>)
        ensures
            match r {
                Some(chord) => codes_of(chord@) == codes@,
                None => exists|i: int|
                    0 <= i < codes@.len() && forall|key: KeyBind| key.spec_code() != #[trigger] codes@[i],
            },
    {
        let mut keys: Vec<KeyBind> = Vec::new();
        let mut i: usize = 0;
        while i < codes.len()
            invariant
                i <= codes@.len(),
                codes_of(keys@) == codes@.subrange(0, i as int),
            decreases codes@.len() - i,
        {
            match KeyBind::from_code(codes[i]) {
                Some(key) => {
                    let ghost before = keys@;
                    keys.push(key);
                    proof {
                        assert(codes_of(keys@) =~= codes_of(before).push(codes@[i as int]));
                        assert(codes@.subrange(0, i + 1) =~= codes@.subrange(0, i as int).push(
                            codes@[i as int],
                        ));
                    }
                },
                None => {
                    return None;
                },
            }
            i += 1;
        }
        proof {
            assert(codes@.subrange(0, i as int) =~= codes@);
        }
        Some(Chord { keys })
    }

    /// The presses of the chord, each as one number.
    pub fn codes(&self) -> (r: Vec<u64>)
        ensures
            r@ == codes_of(self@),
    {
        let mut out: Vec<u64> = Vec::new();
        let mut i: usize = 0;
        while i < self.keys.len()
            invariant
                i <= self.keys@.len(),
                out@ == codes_of(self.keys@.subrange(0, i as int)),
            decreases self.keys@.len() - i,
        {
            out.push(self.keys[i].code());
            proof {
                assert(out@ =~= codes_of(self.keys@.subrange(0, i + 1)));
            }
            i += 1;
        }
        proof {
            assert(self.keys@.subrange(0, i as int) =~= self.keys@);
        }
        out
    }
}

} // verus!
