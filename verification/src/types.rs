use vstd::prelude::*;

verus! {

/// Number of distinct key codes.
pub const NUM_KC: u8 = 105;

/// Number of key codes that text can name: those up to `F12`.
pub const NUM_NAMED_KC: u8 = 81;

/// Key codes, named after QMK key codes.
///
/// The variants up to `F12` are the printable keys and function keys; the
/// remaining variants are the modifiers and the navigation and editing keys.
#[derive(Debug, Copy, Clone, Ord, PartialOrd, Eq, PartialEq, Structural, Hash)]
    pub enum Kc {
        No,
        Num0,
        Num1,
        Num2,
        Num3,
        Num4,
        Num5,
        Num6,
        Num7,
        Num8,
        Num9,
        RightParen,
        Exclamation,
        AtSign,
        Hash,
        DollarSign,
        PercentSign,
        Caret,
        Ampersand,
        Asterisk,
        LeftParen,
        Minus,
        Equals,
        LeftBracket,
        RightBracket,
        Backslash,
        Grave,
        Quote,
        Semicolon,
        Comma,
        Dot,
        Slash,
        Underscore,
        Plus,
        LeftBrace,
        RightBrace,
        Bar,
        Tilde,
        DoubleQuote,
        Colon,
        LeftAngle,
        RightAngle,
        QuestionMark,
        A,
        B,
        C,
        D,
        E,
        F,
        G,
        H,
        I,
        J,
        K,
        L,
        M,
        N,
        O,
        P,
        Q,
        R,
        S,
        T,
        U,
        V,
        W,
        X,
        Y,
        Z,
        F1,
        F2,
        F3,
        F4,
        F5,
        F6,
        F7,
        F8,
        F9,
        F10,
        F11,
        F12,
        Ctrl,
        Shift,
        Alt,
        Super,
        Enter,
        Esc,
        Backspace,
        Tab,
        Space,
        Insert,
        Delete,
        Home,
        End,
        PageUp,
        PageDn,
        Up,
        Down,
        Left,
        Right,
        NumLock,
        ScrollLock,
        MediaVolDown,
        Pause,
        App,
    }

/// Position of a key code in declaration order (its `i8` value).
pub open spec fn spec_kc_index(k: Kc) -> int {
    match k {
        Kc::No => 0,
        Kc::Num0 => 1,
        Kc::Num1 => 2,
        Kc::Num2 => 3,
        Kc::Num3 => 4,
        Kc::Num4 => 5,
        Kc::Num5 => 6,
        Kc::Num6 => 7,
        Kc::Num7 => 8,
        Kc::Num8 => 9,
        Kc::Num9 => 10,
        Kc::RightParen => 11,
        Kc::Exclamation => 12,
        Kc::AtSign => 13,
        Kc::Hash => 14,
        Kc::DollarSign => 15,
        Kc::PercentSign => 16,
        Kc::Caret => 17,
        Kc::Ampersand => 18,
        Kc::Asterisk => 19,
        Kc::LeftParen => 20,
        Kc::Minus => 21,
        Kc::Equals => 22,
        Kc::LeftBracket => 23,
        Kc::RightBracket => 24,
        Kc::Backslash => 25,
        Kc::Grave => 26,
        Kc::Quote => 27,
        Kc::Semicolon => 28,
        Kc::Comma => 29,
        Kc::Dot => 30,
        Kc::Slash => 31,
        Kc::Underscore => 32,
        Kc::Plus => 33,
        Kc::LeftBrace => 34,
        Kc::RightBrace => 35,
        Kc::Bar => 36,
        Kc::Tilde => 37,
        Kc::DoubleQuote => 38,
        Kc::Colon => 39,
        Kc::LeftAngle => 40,
        Kc::RightAngle => 41,
        Kc::QuestionMark => 42,
        Kc::A => 43,
        Kc::B => 44,
        Kc::C => 45,
        Kc::D => 46,
        Kc::E => 47,
        Kc::F => 48,
        Kc::G => 49,
        Kc::H => 50,
        Kc::I => 51,
        Kc::J => 52,
        Kc::K => 53,
        Kc::L => 54,
        Kc::M => 55,
        Kc::N => 56,
        Kc::O => 57,
        Kc::P => 58,
        Kc::Q => 59,
        Kc::R => 60,
        Kc::S => 61,
        Kc::T => 62,
        Kc::U => 63,
        Kc::V => 64,
        Kc::W => 65,
        Kc::X => 66,
        Kc::Y => 67,
        Kc::Z => 68,
        Kc::F1 => 69,
        Kc::F2 => 70,
        Kc::F3 => 71,
        Kc::F4 => 72,
        Kc::F5 => 73,
        Kc::F6 => 74,
        Kc::F7 => 75,
        Kc::F8 => 76,
        Kc::F9 => 77,
        Kc::F10 => 78,
        Kc::F11 => 79,
        Kc::F12 => 80,
        Kc::Ctrl => 81,
        Kc::Shift => 82,
        Kc::Alt => 83,
        Kc::Super => 84,
        Kc::Enter => 85,
        Kc::Esc => 86,
        Kc::Backspace => 87,
        Kc::Tab => 88,
        Kc::Space => 89,
        Kc::Insert => 90,
        Kc::Delete => 91,
        Kc::Home => 92,
        Kc::End => 93,
        Kc::PageUp => 94,
        Kc::PageDn => 95,
        Kc::Up => 96,
        Kc::Down => 97,
        Kc::Left => 98,
        Kc::Right => 99,
        Kc::NumLock => 100,
        Kc::ScrollLock => 101,
        Kc::MediaVolDown => 102,
        Kc::Pause => 103,
        Kc::App => 104,
    }
}

/// The key code at a position in declaration order.
pub open spec fn spec_kc_from_index(i: int) -> Kc {
        if i == 0 { Kc::No } else if i == 1 { Kc::Num0 } else if i == 2 { Kc::Num1 } else if i == 3 { Kc::Num2 } else if i == 4 { Kc::Num3 } else if i == 5 { Kc::Num4 } else if i == 6 { Kc::Num5 } else if i == 7 { Kc::Num6 } else if i == 8 { Kc::Num7 } else if i == 9 { Kc::Num8 } else if i == 10 { Kc::Num9 } else if i == 11 { Kc::RightParen } else if i == 12 { Kc::Exclamation } else if i == 13 { Kc::AtSign } else if i == 14 { Kc::Hash } else if i == 15 { Kc::DollarSign } else if i == 16 { Kc::PercentSign } else if i == 17 { Kc::Caret } else if i == 18 { Kc::Ampersand } else if i == 19 { Kc::Asterisk } else if i == 20 { Kc::LeftParen } else if i == 21 { Kc::Minus } else if i == 22 { Kc::Equals } else if i == 23 { Kc::LeftBracket } else if i == 24 { Kc::RightBracket } else if i == 25 { Kc::Backslash } else if i == 26 { Kc::Grave } else if i == 27 { Kc::Quote } else if i == 28 { Kc::Semicolon } else if i == 29 { Kc::Comma } else if i == 30 { Kc::Dot } else if i == 31 { Kc::Slash } else if i == 32 { Kc::Underscore } else if i == 33 { Kc::Plus } else if i == 34 { Kc::LeftBrace } else if i == 35 { Kc::RightBrace } else if i == 36 { Kc::Bar } else if i == 37 { Kc::Tilde } else if i == 38 { Kc::DoubleQuote } else if i == 39 { Kc::Colon } else if i == 40 { Kc::LeftAngle } else if i == 41 { Kc::RightAngle } else if i == 42 { Kc::QuestionMark } else if i == 43 { Kc::A } else if i == 44 { Kc::B } else if i == 45 { Kc::C } else if i == 46 { Kc::D } else if i == 47 { Kc::E } else if i == 48 { Kc::F } else if i == 49 { Kc::G } else if i == 50 { Kc::H } else if i == 51 { Kc::I } else if i == 52 { Kc::J } else if i == 53 { Kc::K } else if i == 54 { Kc::L } else if i == 55 { Kc::M } else if i == 56 { Kc::N } else if i == 57 { Kc::O } else if i == 58 { Kc::P } else if i == 59 { Kc::Q } else if i == 60 { Kc::R } else if i == 61 { Kc::S } else if i == 62 { Kc::T } else if i == 63 { Kc::U } else if i == 64 { Kc::V } else if i == 65 { Kc::W } else if i == 66 { Kc::X } else if i == 67 { Kc::Y } else if i == 68 { Kc::Z } else if i == 69 { Kc::F1 } else if i == 70 { Kc::F2 } else if i == 71 { Kc::F3 } else if i == 72 { Kc::F4 } else if i == 73 { Kc::F5 } else if i == 74 { Kc::F6 } else if i == 75 { Kc::F7 } else if i == 76 { Kc::F8 } else if i == 77 { Kc::F9 } else if i == 78 { Kc::F10 } else if i == 79 { Kc::F11 } else if i == 80 { Kc::F12 } else if i == 81 { Kc::Ctrl } else if i == 82 { Kc::Shift } else if i == 83 { Kc::Alt } else if i == 84 { Kc::Super } else if i == 85 { Kc::Enter } else if i == 86 { Kc::Esc } else if i == 87 { Kc::Backspace } else if i == 88 { Kc::Tab } else if i == 89 { Kc::Space } else if i == 90 { Kc::Insert } else if i == 91 { Kc::Delete } else if i == 92 { Kc::Home } else if i == 93 { Kc::End } else if i == 94 { Kc::PageUp } else if i == 95 { Kc::PageDn } else if i == 96 { Kc::Up } else if i == 97 { Kc::Down } else if i == 98 { Kc::Left } else if i == 99 { Kc::Right } else if i == 100 { Kc::NumLock } else if i == 101 { Kc::ScrollLock } else if i == 102 { Kc::MediaVolDown } else if i == 103 { Kc::Pause } else { Kc::App }
}

/// The text a key code is written as (in configuration files and for display).
pub open spec fn spec_kc_name(k: Kc) -> Seq<char> {
    match k {
        Kc::No => seq!['N', 'o', 'n', 'e'],
        Kc::Num0 => seq!['0'],
        Kc::Num1 => seq!['1'],
        Kc::Num2 => seq!['2'],
        Kc::Num3 => seq!['3'],
        Kc::Num4 => seq!['4'],
        Kc::Num5 => seq!['5'],
        Kc::Num6 => seq!['6'],
        Kc::Num7 => seq!['7'],
        Kc::Num8 => seq!['8'],
        Kc::Num9 => seq!['9'],
        Kc::RightParen => seq![')'],
        Kc::Exclamation => seq!['!'],
        Kc::AtSign => seq!['@'],
        Kc::Hash => seq!['#'],
        Kc::DollarSign => seq!['$'],
        Kc::PercentSign => seq!['%'],
        Kc::Caret => seq!['^'],
        Kc::Ampersand => seq!['&'],
        Kc::Asterisk => seq!['*'],
        Kc::LeftParen => seq!['('],
        Kc::Minus => seq!['-'],
        Kc::Equals => seq!['='],
        Kc::LeftBracket => seq!['['],
        Kc::RightBracket => seq![']'],
        Kc::Backslash => seq!['\\'],
        Kc::Grave => seq!['`'],
        Kc::Quote => seq!['\''],
        Kc::Semicolon => seq![';'],
        Kc::Comma => seq![','],
        Kc::Dot => seq!['.'],
        Kc::Slash => seq!['/'],
        Kc::Underscore => seq!['_'],
        Kc::Plus => seq!['+'],
        Kc::LeftBrace => seq!['{'],
        Kc::RightBrace => seq!['}'],
        Kc::Bar => seq!['|'],
        Kc::Tilde => seq!['~'],
        Kc::DoubleQuote => seq!['"'],
        Kc::Colon => seq![':'],
        Kc::LeftAngle => seq!['<'],
        Kc::RightAngle => seq!['>'],
        Kc::QuestionMark => seq!['?'],
        Kc::A => seq!['a'],
        Kc::B => seq!['b'],
        Kc::C => seq!['c'],
        Kc::D => seq!['d'],
        Kc::E => seq!['e'],
        Kc::F => seq!['f'],
        Kc::G => seq!['g'],
        Kc::H => seq!['h'],
        Kc::I => seq!['i'],
        Kc::J => seq!['j'],
        Kc::K => seq!['k'],
        Kc::L => seq!['l'],
        Kc::M => seq!['m'],
        Kc::N => seq!['n'],
        Kc::O => seq!['o'],
        Kc::P => seq!['p'],
        Kc::Q => seq!['q'],
        Kc::R => seq!['r'],
        Kc::S => seq!['s'],
        Kc::T => seq!['t'],
        Kc::U => seq!['u'],
        Kc::V => seq!['v'],
        Kc::W => seq!['w'],
        Kc::X => seq!['x'],
        Kc::Y => seq!['y'],
        Kc::Z => seq!['z'],
        Kc::F1 => seq!['F', '1'],
        Kc::F2 => seq!['F', '2'],
        Kc::F3 => seq!['F', '3'],
        Kc::F4 => seq!['F', '4'],
        Kc::F5 => seq!['F', '5'],
        Kc::F6 => seq!['F', '6'],
        Kc::F7 => seq!['F', '7'],
        Kc::F8 => seq!['F', '8'],
        Kc::F9 => seq!['F', '9'],
        Kc::F10 => seq!['F', '1', '0'],
        Kc::F11 => seq!['F', '1', '1'],
        Kc::F12 => seq!['F', '1', '2'],
        Kc::Ctrl => seq!['C', 't', 'r', 'l'],
        Kc::Shift => seq!['S', 'h', 'i', 'f', 't'],
        Kc::Alt => seq!['A', 'l', 't'],
        Kc::Super => seq!['S', 'u', 'p', 'e', 'r'],
        Kc::Enter => seq!['E', 'n', 't', 'e', 'r'],
        Kc::Esc => seq!['E', 's', 'c'],
        Kc::Backspace => seq!['B', 'a', 'c', 'k', 's', 'p', 'a', 'c', 'e'],
        Kc::Tab => seq!['T', 'a', 'b'],
        Kc::Space => seq!['S', 'p', 'a', 'c', 'e'],
        Kc::Insert => seq!['I', 'n', 's', 'e', 'r', 't'],
        Kc::Delete => seq!['D', 'e', 'l', 'e', 't', 'e'],
        Kc::Home => seq!['H', 'o', 'm', 'e'],
        Kc::End => seq!['E', 'n', 'd'],
        Kc::PageUp => seq!['P', 'a', 'g', 'e', 'U', 'p'],
        Kc::PageDn => seq!['P', 'a', 'g', 'e', 'D', 'n'],
        Kc::Up => seq!['U', 'p'],
        Kc::Down => seq!['D', 'o', 'w', 'n'],
        Kc::Left => seq!['L', 'e', 'f', 't'],
        Kc::Right => seq!['R', 'i', 'g', 'h', 't'],
        Kc::NumLock => seq!['N', 'u', 'm', 'L', 'o', 'c', 'k'],
        Kc::ScrollLock => seq!['S', 'c', 'r', 'o', 'l', 'l', 'L', 'o', 'c', 'k'],
        Kc::MediaVolDown => seq!['M', 'e', 'd', 'i', 'a', 'V', 'o', 'l', 'D', 'o', 'w', 'n'],
        Kc::Pause => seq!['P', 'a', 'u', 's', 'e'],
        Kc::App => seq!['A', 'p', 'p'],
    }
}

/// The identifier of a key code's variant.
pub open spec fn spec_kc_debug_name(k: Kc) -> Seq<char> {
    match k {
        Kc::No => seq!['N', 'o', 'n', 'e'],
        Kc::Num0 => seq!['N', 'u', 'm', '0'],
        Kc::Num1 => seq!['N', 'u', 'm', '1'],
        Kc::Num2 => seq!['N', 'u', 'm', '2'],
        Kc::Num3 => seq!['N', 'u', 'm', '3'],
        Kc::Num4 => seq!['N', 'u', 'm', '4'],
        Kc::Num5 => seq!['N', 'u', 'm', '5'],
        Kc::Num6 => seq!['N', 'u', 'm', '6'],
        Kc::Num7 => seq!['N', 'u', 'm', '7'],
        Kc::Num8 => seq!['N', 'u', 'm', '8'],
        Kc::Num9 => seq!['N', 'u', 'm', '9'],
        Kc::RightParen => seq!['R', 'i', 'g', 'h', 't', 'P', 'a', 'r', 'e', 'n'],
        Kc::Exclamation => seq!['E', 'x', 'c', 'l', 'a', 'm', 'a', 't', 'i', 'o', 'n'],
        Kc::AtSign => seq!['A', 't', 'S', 'i', 'g', 'n'],
        Kc::Hash => seq!['H', 'a', 's', 'h'],
        Kc::DollarSign => seq!['D', 'o', 'l', 'l', 'a', 'r', 'S', 'i', 'g', 'n'],
        Kc::PercentSign => seq!['P', 'e', 'r', 'c', 'e', 'n', 't', 'S', 'i', 'g', 'n'],
        Kc::Caret => seq!['C', 'a', 'r', 'e', 't'],
        Kc::Ampersand => seq!['A', 'm', 'p', 'e', 'r', 's', 'a', 'n', 'd'],
        Kc::Asterisk => seq!['A', 's', 't', 'e', 'r', 'i', 's', 'k'],
        Kc::LeftParen => seq!['L', 'e', 'f', 't', 'P', 'a', 'r', 'e', 'n'],
        Kc::Minus => seq!['M', 'i', 'n', 'u', 's'],
        Kc::Equals => seq!['E', 'q', 'u', 'a', 'l', 's'],
        Kc::LeftBracket => seq!['L', 'e', 'f', 't', 'B', 'r', 'a', 'c', 'k', 'e', 't'],
        Kc::RightBracket => seq!['R', 'i', 'g', 'h', 't', 'B', 'r', 'a', 'c', 'k', 'e', 't'],
        Kc::Backslash => seq!['B', 'a', 'c', 'k', 's', 'l', 'a', 's', 'h'],
        Kc::Grave => seq!['G', 'r', 'a', 'v', 'e'],
        Kc::Quote => seq!['Q', 'u', 'o', 't', 'e'],
        Kc::Semicolon => seq!['S', 'e', 'm', 'i', 'c', 'o', 'l', 'o', 'n'],
        Kc::Comma => seq!['C', 'o', 'm', 'm', 'a'],
        Kc::Dot => seq!['D', 'o', 't'],
        Kc::Slash => seq!['S', 'l', 'a', 's', 'h'],
        Kc::Underscore => seq!['U', 'n', 'd', 'e', 'r', 's', 'c', 'o', 'r', 'e'],
        Kc::Plus => seq!['P', 'l', 'u', 's'],
        Kc::LeftBrace => seq!['L', 'e', 'f', 't', 'B', 'r', 'a', 'c', 'e'],
        Kc::RightBrace => seq!['R', 'i', 'g', 'h', 't', 'B', 'r', 'a', 'c', 'e'],
        Kc::Bar => seq!['B', 'a', 'r'],
        Kc::Tilde => seq!['T', 'i', 'l', 'd', 'e'],
        Kc::DoubleQuote => seq!['D', 'o', 'u', 'b', 'l', 'e', 'Q', 'u', 'o', 't', 'e'],
        Kc::Colon => seq!['C', 'o', 'l', 'o', 'n'],
        Kc::LeftAngle => seq!['L', 'e', 'f', 't', 'A', 'n', 'g', 'l', 'e'],
        Kc::RightAngle => seq!['R', 'i', 'g', 'h', 't', 'A', 'n', 'g', 'l', 'e'],
        Kc::QuestionMark => seq!['Q', 'u', 'e', 's', 't', 'i', 'o', 'n', 'M', 'a', 'r', 'k'],
        Kc::A => seq!['A'],
        Kc::B => seq!['B'],
        Kc::C => seq!['C'],
        Kc::D => seq!['D'],
        Kc::E => seq!['E'],
        Kc::F => seq!['F'],
        Kc::G => seq!['G'],
        Kc::H => seq!['H'],
        Kc::I => seq!['I'],
        Kc::J => seq!['J'],
        Kc::K => seq!['K'],
        Kc::L => seq!['L'],
        Kc::M => seq!['M'],
        Kc::N => seq!['N'],
        Kc::O => seq!['O'],
        Kc::P => seq!['P'],
        Kc::Q => seq!['Q'],
        Kc::R => seq!['R'],
        Kc::S => seq!['S'],
        Kc::T => seq!['T'],
        Kc::U => seq!['U'],
        Kc::V => seq!['V'],
        Kc::W => seq!['W'],
        Kc::X => seq!['X'],
        Kc::Y => seq!['Y'],
        Kc::Z => seq!['Z'],
        Kc::F1 => seq!['F', '1'],
        Kc::F2 => seq!['F', '2'],
        Kc::F3 => seq!['F', '3'],
        Kc::F4 => seq!['F', '4'],
        Kc::F5 => seq!['F', '5'],
        Kc::F6 => seq!['F', '6'],
        Kc::F7 => seq!['F', '7'],
        Kc::F8 => seq!['F', '8'],
        Kc::F9 => seq!['F', '9'],
        Kc::F10 => seq!['F', '1', '0'],
        Kc::F11 => seq!['F', '1', '1'],
        Kc::F12 => seq!['F', '1', '2'],
        Kc::Ctrl => seq!['C', 't', 'r', 'l'],
        Kc::Shift => seq!['S', 'h', 'i', 'f', 't'],
        Kc::Alt => seq!['A', 'l', 't'],
        Kc::Super => seq!['S', 'u', 'p', 'e', 'r'],
        Kc::Enter => seq!['E', 'n', 't', 'e', 'r'],
        Kc::Esc => seq!['E', 's', 'c'],
        Kc::Backspace => seq!['B', 'a', 'c', 'k', 's', 'p', 'a', 'c', 'e'],
        Kc::Tab => seq!['T', 'a', 'b'],
        Kc::Space => seq!['S', 'p', 'a', 'c', 'e'],
        Kc::Insert => seq!['I', 'n', 's', 'e', 'r', 't'],
        Kc::Delete => seq!['D', 'e', 'l', 'e', 't', 'e'],
        Kc::Home => seq!['H', 'o', 'm', 'e'],
        Kc::End => seq!['E', 'n', 'd'],
        Kc::PageUp => seq!['P', 'a', 'g', 'e', 'U', 'p'],
        Kc::PageDn => seq!['P', 'a', 'g', 'e', 'D', 'n'],
        Kc::Up => seq!['U', 'p'],
        Kc::Down => seq!['D', 'o', 'w', 'n'],
        Kc::Left => seq!['L', 'e', 'f', 't'],
        Kc::Right => seq!['R', 'i', 'g', 'h', 't'],
        Kc::NumLock => seq!['N', 'u', 'm', 'L', 'o', 'c', 'k'],
        Kc::ScrollLock => seq!['S', 'c', 'r', 'o', 'l', 'l', 'L', 'o', 'c', 'k'],
        Kc::MediaVolDown => seq!['M', 'e', 'd', 'i', 'a', 'V', 'o', 'l', 'D', 'o', 'w', 'n'],
        Kc::Pause => seq!['P', 'a', 'u', 's', 'e'],
        Kc::App => seq!['A', 'p', 'p'],
    }
}

/// Modifier keys: Ctrl, Shift, Alt and Super.
pub open spec fn spec_is_mod(k: Kc) -> bool {
    k == Kc::Ctrl || k == Kc::Shift || k == Kc::Alt || k == Kc::Super
}

/// Every key code has an index below `NUM_KC`, and the index identifies it.
pub broadcast proof fn lemma_kc_index(k: Kc)
    ensures
        0 <= #[trigger] spec_kc_index(k) < NUM_KC,
        spec_kc_from_index(spec_kc_index(k)) == k,
{
}

/// Indices below `NUM_KC` are the indices of key codes.
pub broadcast proof fn lemma_kc_from_index(i: int)
    requires
        0 <= i < NUM_KC,
    ensures
        spec_kc_index(#[trigger] spec_kc_from_index(i)) == i,
{
}

/// Distinct key codes have distinct indices.
pub proof fn lemma_kc_index_injective(a: Kc, b: Kc)
    requires
        spec_kc_index(a) == spec_kc_index(b),
    ensures
        a == b,
{
    lemma_kc_index(a);
    lemma_kc_index(b);
}

/// The index of a key code.
pub fn kc_index(k: Kc) -> (r: u8)
    ensures
        r as int == spec_kc_index(k),
        r < NUM_KC,
{
    match k {
        Kc::No => 0,
        Kc::Num0 => 1,
        Kc::Num1 => 2,
        Kc::Num2 => 3,
        Kc::Num3 => 4,
        Kc::Num4 => 5,
        Kc::Num5 => 6,
        Kc::Num6 => 7,
        Kc::Num7 => 8,
        Kc::Num8 => 9,
        Kc::Num9 => 10,
        Kc::RightParen => 11,
        Kc::Exclamation => 12,
        Kc::AtSign => 13,
        Kc::Hash => 14,
        Kc::DollarSign => 15,
        Kc::PercentSign => 16,
        Kc::Caret => 17,
        Kc::Ampersand => 18,
        Kc::Asterisk => 19,
        Kc::LeftParen => 20,
        Kc::Minus => 21,
        Kc::Equals => 22,
        Kc::LeftBracket => 23,
        Kc::RightBracket => 24,
        Kc::Backslash => 25,
        Kc::Grave => 26,
        Kc::Quote => 27,
        Kc::Semicolon => 28,
        Kc::Comma => 29,
        Kc::Dot => 30,
        Kc::Slash => 31,
        Kc::Underscore => 32,
        Kc::Plus => 33,
        Kc::LeftBrace => 34,
        Kc::RightBrace => 35,
        Kc::Bar => 36,
        Kc::Tilde => 37,
        Kc::DoubleQuote => 38,
        Kc::Colon => 39,
        Kc::LeftAngle => 40,
        Kc::RightAngle => 41,
        Kc::QuestionMark => 42,
        Kc::A => 43,
        Kc::B => 44,
        Kc::C => 45,
        Kc::D => 46,
        Kc::E => 47,
        Kc::F => 48,
        Kc::G => 49,
        Kc::H => 50,
        Kc::I => 51,
        Kc::J => 52,
        Kc::K => 53,
        Kc::L => 54,
        Kc::M => 55,
        Kc::N => 56,
        Kc::O => 57,
        Kc::P => 58,
        Kc::Q => 59,
        Kc::R => 60,
        Kc::S => 61,
        Kc::T => 62,
        Kc::U => 63,
        Kc::V => 64,
        Kc::W => 65,
        Kc::X => 66,
        Kc::Y => 67,
        Kc::Z => 68,
        Kc::F1 => 69,
        Kc::F2 => 70,
        Kc::F3 => 71,
        Kc::F4 => 72,
        Kc::F5 => 73,
        Kc::F6 => 74,
        Kc::F7 => 75,
        Kc::F8 => 76,
        Kc::F9 => 77,
        Kc::F10 => 78,
        Kc::F11 => 79,
        Kc::F12 => 80,
        Kc::Ctrl => 81,
        Kc::Shift => 82,
        Kc::Alt => 83,
        Kc::Super => 84,
        Kc::Enter => 85,
        Kc::Esc => 86,
        Kc::Backspace => 87,
        Kc::Tab => 88,
        Kc::Space => 89,
        Kc::Insert => 90,
        Kc::Delete => 91,
        Kc::Home => 92,
        Kc::End => 93,
        Kc::PageUp => 94,
        Kc::PageDn => 95,
        Kc::Up => 96,
        Kc::Down => 97,
        Kc::Left => 98,
        Kc::Right => 99,
        Kc::NumLock => 100,
        Kc::ScrollLock => 101,
        Kc::MediaVolDown => 102,
        Kc::Pause => 103,
        Kc::App => 104,
    }
}

/// The key code at index `i`.
pub fn kc_from_index(i: u8) -> (r: Kc)
    requires
        i < NUM_KC,
    ensures
        r == spec_kc_from_index(i as int),
        spec_kc_index(r) == i,
{
    proof { lemma_kc_from_index(i as int); }
    match i {
        0 => Kc::No,
        1 => Kc::Num0,
        2 => Kc::Num1,
        3 => Kc::Num2,
        4 => Kc::Num3,
        5 => Kc::Num4,
        6 => Kc::Num5,
        7 => Kc::Num6,
        8 => Kc::Num7,
        9 => Kc::Num8,
        10 => Kc::Num9,
        11 => Kc::RightParen,
        12 => Kc::Exclamation,
        13 => Kc::AtSign,
        14 => Kc::Hash,
        15 => Kc::DollarSign,
        16 => Kc::PercentSign,
        17 => Kc::Caret,
        18 => Kc::Ampersand,
        19 => Kc::Asterisk,
        20 => Kc::LeftParen,
        21 => Kc::Minus,
        22 => Kc::Equals,
        23 => Kc::LeftBracket,
        24 => Kc::RightBracket,
        25 => Kc::Backslash,
        26 => Kc::Grave,
        27 => Kc::Quote,
        28 => Kc::Semicolon,
        29 => Kc::Comma,
        30 => Kc::Dot,
        31 => Kc::Slash,
        32 => Kc::Underscore,
        33 => Kc::Plus,
        34 => Kc::LeftBrace,
        35 => Kc::RightBrace,
        36 => Kc::Bar,
        37 => Kc::Tilde,
        38 => Kc::DoubleQuote,
        39 => Kc::Colon,
        40 => Kc::LeftAngle,
        41 => Kc::RightAngle,
        42 => Kc::QuestionMark,
        43 => Kc::A,
        44 => Kc::B,
        45 => Kc::C,
        46 => Kc::D,
        47 => Kc::E,
        48 => Kc::F,
        49 => Kc::G,
        50 => Kc::H,
        51 => Kc::I,
        52 => Kc::J,
        53 => Kc::K,
        54 => Kc::L,
        55 => Kc::M,
        56 => Kc::N,
        57 => Kc::O,
        58 => Kc::P,
        59 => Kc::Q,
        60 => Kc::R,
        61 => Kc::S,
        62 => Kc::T,
        63 => Kc::U,
        64 => Kc::V,
        65 => Kc::W,
        66 => Kc::X,
        67 => Kc::Y,
        68 => Kc::Z,
        69 => Kc::F1,
        70 => Kc::F2,
        71 => Kc::F3,
        72 => Kc::F4,
        73 => Kc::F5,
        74 => Kc::F6,
        75 => Kc::F7,
        76 => Kc::F8,
        77 => Kc::F9,
        78 => Kc::F10,
        79 => Kc::F11,
        80 => Kc::F12,
        81 => Kc::Ctrl,
        82 => Kc::Shift,
        83 => Kc::Alt,
        84 => Kc::Super,
        85 => Kc::Enter,
        86 => Kc::Esc,
        87 => Kc::Backspace,
        88 => Kc::Tab,
        89 => Kc::Space,
        90 => Kc::Insert,
        91 => Kc::Delete,
        92 => Kc::Home,
        93 => Kc::End,
        94 => Kc::PageUp,
        95 => Kc::PageDn,
        96 => Kc::Up,
        97 => Kc::Down,
        98 => Kc::Left,
        99 => Kc::Right,
        100 => Kc::NumLock,
        101 => Kc::ScrollLock,
        102 => Kc::MediaVolDown,
        103 => Kc::Pause,
        _ => Kc::App,
    }
}

/// The text a key code is written as.
pub fn kc_name(k: Kc) -> (r: &'static str)
    ensures
        r@ == spec_kc_name(k),
{
    match k {
            Kc::No => {
                proof { reveal_strlit("None"); }
                "None"
            },
            Kc::Num0 => {
                proof { reveal_strlit("0"); }
                "0"
            },
            Kc::Num1 => {
                proof { reveal_strlit("1"); }
                "1"
            },
            Kc::Num2 => {
                proof { reveal_strlit("2"); }
                "2"
            },
            Kc::Num3 => {
                proof { reveal_strlit("3"); }
                "3"
            },
            Kc::Num4 => {
                proof { reveal_strlit("4"); }
                "4"
            },
            Kc::Num5 => {
                proof { reveal_strlit("5"); }
                "5"
            },
            Kc::Num6 => {
                proof { reveal_strlit("6"); }
                "6"
            },
            Kc::Num7 => {
                proof { reveal_strlit("7"); }
                "7"
            },
            Kc::Num8 => {
                proof { reveal_strlit("8"); }
                "8"
            },
            Kc::Num9 => {
                proof { reveal_strlit("9"); }
                "9"
            },
            Kc::RightParen => {
                proof { reveal_strlit(")"); }
                ")"
            },
            Kc::Exclamation => {
                proof { reveal_strlit("!"); }
                "!"
            },
            Kc::AtSign => {
                proof { reveal_strlit("@"); }
                "@"
            },
            Kc::Hash => {
                proof { reveal_strlit("#"); }
                "#"
            },
            Kc::DollarSign => {
                proof { reveal_strlit("$"); }
                "$"
            },
            Kc::PercentSign => {
                proof { reveal_strlit("%"); }
                "%"
            },
            Kc::Caret => {
                proof { reveal_strlit("^"); }
                "^"
            },
            Kc::Ampersand => {
                proof { reveal_strlit("&"); }
                "&"
            },
            Kc::Asterisk => {
                proof { reveal_strlit("*"); }
                "*"
            },
            Kc::LeftParen => {
                proof { reveal_strlit("("); }
                "("
            },
            Kc::Minus => {
                proof { reveal_strlit("-"); }
                "-"
            },
            Kc::Equals => {
                proof { reveal_strlit("="); }
                "="
            },
            Kc::LeftBracket => {
                proof { reveal_strlit("["); }
                "["
            },
            Kc::RightBracket => {
                proof { reveal_strlit("]"); }
                "]"
            },
            Kc::Backslash => {
                proof { reveal_strlit("\\"); }
                "\\"
            },
            Kc::Grave => {
                proof { reveal_strlit("`"); }
                "`"
            },
            Kc::Quote => {
                proof { reveal_strlit("'"); }
                "'"
            },
            Kc::Semicolon => {
                proof { reveal_strlit(";"); }
                ";"
            },
            Kc::Comma => {
                proof { reveal_strlit(","); }
                ","
            },
            Kc::Dot => {
                proof { reveal_strlit("."); }
                "."
            },
            Kc::Slash => {
                proof { reveal_strlit("/"); }
                "/"
            },
            Kc::Underscore => {
                proof { reveal_strlit("_"); }
                "_"
            },
            Kc::Plus => {
                proof { reveal_strlit("+"); }
                "+"
            },
            Kc::LeftBrace => {
                proof { reveal_strlit("{"); }
                "{"
            },
            Kc::RightBrace => {
                proof { reveal_strlit("}"); }
                "}"
            },
            Kc::Bar => {
                proof { reveal_strlit("|"); }
                "|"
            },
            Kc::Tilde => {
                proof { reveal_strlit("~"); }
                "~"
            },
            Kc::DoubleQuote => {
                proof { reveal_strlit("\""); }
                "\""
            },
            Kc::Colon => {
                proof { reveal_strlit(":"); }
                ":"
            },
            Kc::LeftAngle => {
                proof { reveal_strlit("<"); }
                "<"
            },
            Kc::RightAngle => {
                proof { reveal_strlit(">"); }
                ">"
            },
            Kc::QuestionMark => {
                proof { reveal_strlit("?"); }
                "?"
            },
            Kc::A => {
                proof { reveal_strlit("a"); }
                "a"
            },
            Kc::B => {
                proof { reveal_strlit("b"); }
                "b"
            },
            Kc::C => {
                proof { reveal_strlit("c"); }
                "c"
            },
            Kc::D => {
                proof { reveal_strlit("d"); }
                "d"
            },
            Kc::E => {
                proof { reveal_strlit("e"); }
                "e"
            },
            Kc::F => {
                proof { reveal_strlit("f"); }
                "f"
            },
            Kc::G => {
                proof { reveal_strlit("g"); }
                "g"
            },
            Kc::H => {
                proof { reveal_strlit("h"); }
                "h"
            },
            Kc::I => {
                proof { reveal_strlit("i"); }
                "i"
            },
            Kc::J => {
                proof { reveal_strlit("j"); }
                "j"
            },
            Kc::K => {
                proof { reveal_strlit("k"); }
                "k"
            },
            Kc::L => {
                proof { reveal_strlit("l"); }
                "l"
            },
            Kc::M => {
                proof { reveal_strlit("m"); }
                "m"
            },
            Kc::N => {
                proof { reveal_strlit("n"); }
                "n"
            },
            Kc::O => {
                proof { reveal_strlit("o"); }
                "o"
            },
            Kc::P => {
                proof { reveal_strlit("p"); }
                "p"
            },
            Kc::Q => {
                proof { reveal_strlit("q"); }
                "q"
            },
            Kc::R => {
                proof { reveal_strlit("r"); }
                "r"
            },
            Kc::S => {
                proof { reveal_strlit("s"); }
                "s"
            },
            Kc::T => {
                proof { reveal_strlit("t"); }
                "t"
            },
            Kc::U => {
                proof { reveal_strlit("u"); }
                "u"
            },
            Kc::V => {
                proof { reveal_strlit("v"); }
                "v"
            },
            Kc::W => {
                proof { reveal_strlit("w"); }
                "w"
            },
            Kc::X => {
                proof { reveal_strlit("x"); }
                "x"
            },
            Kc::Y => {
                proof { reveal_strlit("y"); }
                "y"
            },
            Kc::Z => {
                proof { reveal_strlit("z"); }
                "z"
            },
            Kc::F1 => {
                proof { reveal_strlit("F1"); }
                "F1"
            },
            Kc::F2 => {
                proof { reveal_strlit("F2"); }
                "F2"
            },
            Kc::F3 => {
                proof { reveal_strlit("F3"); }
                "F3"
            },
            Kc::F4 => {
                proof { reveal_strlit("F4"); }
                "F4"
            },
            Kc::F5 => {
                proof { reveal_strlit("F5"); }
                "F5"
            },
            Kc::F6 => {
                proof { reveal_strlit("F6"); }
                "F6"
            },
            Kc::F7 => {
                proof { reveal_strlit("F7"); }
                "F7"
            },
            Kc::F8 => {
                proof { reveal_strlit("F8"); }
                "F8"
            },
            Kc::F9 => {
                proof { reveal_strlit("F9"); }
                "F9"
            },
            Kc::F10 => {
                proof { reveal_strlit("F10"); }
                "F10"
            },
            Kc::F11 => {
                proof { reveal_strlit("F11"); }
                "F11"
            },
            Kc::F12 => {
                proof { reveal_strlit("F12"); }
                "F12"
            },
            Kc::Ctrl => {
                proof { reveal_strlit("Ctrl"); }
                "Ctrl"
            },
            Kc::Shift => {
                proof { reveal_strlit("Shift"); }
                "Shift"
            },
            Kc::Alt => {
                proof { reveal_strlit("Alt"); }
                "Alt"
            },
            Kc::Super => {
                proof { reveal_strlit("Super"); }
                "Super"
            },
            Kc::Enter => {
                proof { reveal_strlit("Enter"); }
                "Enter"
            },
            Kc::Esc => {
                proof { reveal_strlit("Esc"); }
                "Esc"
            },
            Kc::Backspace => {
                proof { reveal_strlit("Backspace"); }
                "Backspace"
            },
            Kc::Tab => {
                proof { reveal_strlit("Tab"); }
                "Tab"
            },
            Kc::Space => {
                proof { reveal_strlit("Space"); }
                "Space"
            },
            Kc::Insert => {
                proof { reveal_strlit("Insert"); }
                "Insert"
            },
            Kc::Delete => {
                proof { reveal_strlit("Delete"); }
                "Delete"
            },
            Kc::Home => {
                proof { reveal_strlit("Home"); }
                "Home"
            },
            Kc::End => {
                proof { reveal_strlit("End"); }
                "End"
            },
            Kc::PageUp => {
                proof { reveal_strlit("PageUp"); }
                "PageUp"
            },
            Kc::PageDn => {
                proof { reveal_strlit("PageDn"); }
                "PageDn"
            },
            Kc::Up => {
                proof { reveal_strlit("Up"); }
                "Up"
            },
            Kc::Down => {
                proof { reveal_strlit("Down"); }
                "Down"
            },
            Kc::Left => {
                proof { reveal_strlit("Left"); }
                "Left"
            },
            Kc::Right => {
                proof { reveal_strlit("Right"); }
                "Right"
            },
            Kc::NumLock => {
                proof { reveal_strlit("NumLock"); }
                "NumLock"
            },
            Kc::ScrollLock => {
                proof { reveal_strlit("ScrollLock"); }
                "ScrollLock"
            },
            Kc::MediaVolDown => {
                proof { reveal_strlit("MediaVolDown"); }
                "MediaVolDown"
            },
            Kc::Pause => {
                proof { reveal_strlit("Pause"); }
                "Pause"
            },
            Kc::App => {
                proof { reveal_strlit("App"); }
                "App"
            },
    }
}

/// The identifier of a key code's variant.
pub fn kc_debug_name(k: Kc) -> (r: &'static str)
    ensures
        r@ == spec_kc_debug_name(k),
{
    match k {
            Kc::No => {
                proof { reveal_strlit("None"); }
                "None"
            },
            Kc::Num0 => {
                proof { reveal_strlit("Num0"); }
                "Num0"
            },
            Kc::Num1 => {
                proof { reveal_strlit("Num1"); }
                "Num1"
            },
            Kc::Num2 => {
                proof { reveal_strlit("Num2"); }
                "Num2"
            },
            Kc::Num3 => {
                proof { reveal_strlit("Num3"); }
                "Num3"
            },
            Kc::Num4 => {
                proof { reveal_strlit("Num4"); }
                "Num4"
            },
            Kc::Num5 => {
                proof { reveal_strlit("Num5"); }
                "Num5"
            },
            Kc::Num6 => {
                proof { reveal_strlit("Num6"); }
                "Num6"
            },
            Kc::Num7 => {
                proof { reveal_strlit("Num7"); }
                "Num7"
            },
            Kc::Num8 => {
                proof { reveal_strlit("Num8"); }
                "Num8"
            },
            Kc::Num9 => {
                proof { reveal_strlit("Num9"); }
                "Num9"
            },
            Kc::RightParen => {
                proof { reveal_strlit("RightParen"); }
                "RightParen"
            },
            Kc::Exclamation => {
                proof { reveal_strlit("Exclamation"); }
                "Exclamation"
            },
            Kc::AtSign => {
                proof { reveal_strlit("AtSign"); }
                "AtSign"
            },
            Kc::Hash => {
                proof { reveal_strlit("Hash"); }
                "Hash"
            },
            Kc::DollarSign => {
                proof { reveal_strlit("DollarSign"); }
                "DollarSign"
            },
            Kc::PercentSign => {
                proof { reveal_strlit("PercentSign"); }
                "PercentSign"
            },
            Kc::Caret => {
                proof { reveal_strlit("Caret"); }
                "Caret"
            },
            Kc::Ampersand => {
                proof { reveal_strlit("Ampersand"); }
                "Ampersand"
            },
            Kc::Asterisk => {
                proof { reveal_strlit("Asterisk"); }
                "Asterisk"
            },
            Kc::LeftParen => {
                proof { reveal_strlit("LeftParen"); }
                "LeftParen"
            },
            Kc::Minus => {
                proof { reveal_strlit("Minus"); }
                "Minus"
            },
            Kc::Equals => {
                proof { reveal_strlit("Equals"); }
                "Equals"
            },
            Kc::LeftBracket => {
                proof { reveal_strlit("LeftBracket"); }
                "LeftBracket"
            },
            Kc::RightBracket => {
                proof { reveal_strlit("RightBracket"); }
                "RightBracket"
            },
            Kc::Backslash => {
                proof { reveal_strlit("Backslash"); }
                "Backslash"
            },
            Kc::Grave => {
                proof { reveal_strlit("Grave"); }
                "Grave"
            },
            Kc::Quote => {
                proof { reveal_strlit("Quote"); }
                "Quote"
            },
            Kc::Semicolon => {
                proof { reveal_strlit("Semicolon"); }
                "Semicolon"
            },
            Kc::Comma => {
                proof { reveal_strlit("Comma"); }
                "Comma"
            },
            Kc::Dot => {
                proof { reveal_strlit("Dot"); }
                "Dot"
            },
            Kc::Slash => {
                proof { reveal_strlit("Slash"); }
                "Slash"
            },
            Kc::Underscore => {
                proof { reveal_strlit("Underscore"); }
                "Underscore"
            },
            Kc::Plus => {
                proof { reveal_strlit("Plus"); }
                "Plus"
            },
            Kc::LeftBrace => {
                proof { reveal_strlit("LeftBrace"); }
                "LeftBrace"
            },
            Kc::RightBrace => {
                proof { reveal_strlit("RightBrace"); }
                "RightBrace"
            },
            Kc::Bar => {
                proof { reveal_strlit("Bar"); }
                "Bar"
            },
            Kc::Tilde => {
                proof { reveal_strlit("Tilde"); }
                "Tilde"
            },
            Kc::DoubleQuote => {
                proof { reveal_strlit("DoubleQuote"); }
                "DoubleQuote"
            },
            Kc::Colon => {
                proof { reveal_strlit("Colon"); }
                "Colon"
            },
            Kc::LeftAngle => {
                proof { reveal_strlit("LeftAngle"); }
                "LeftAngle"
            },
            Kc::RightAngle => {
                proof { reveal_strlit("RightAngle"); }
                "RightAngle"
            },
            Kc::QuestionMark => {
                proof { reveal_strlit("QuestionMark"); }
                "QuestionMark"
            },
            Kc::A => {
                proof { reveal_strlit("A"); }
                "A"
            },
            Kc::B => {
                proof { reveal_strlit("B"); }
                "B"
            },
            Kc::C => {
                proof { reveal_strlit("C"); }
                "C"
            },
            Kc::D => {
                proof { reveal_strlit("D"); }
                "D"
            },
            Kc::E => {
                proof { reveal_strlit("E"); }
                "E"
            },
            Kc::F => {
                proof { reveal_strlit("F"); }
                "F"
            },
            Kc::G => {
                proof { reveal_strlit("G"); }
                "G"
            },
            Kc::H => {
                proof { reveal_strlit("H"); }
                "H"
            },
            Kc::I => {
                proof { reveal_strlit("I"); }
                "I"
            },
            Kc::J => {
                proof { reveal_strlit("J"); }
                "J"
            },
            Kc::K => {
                proof { reveal_strlit("K"); }
                "K"
            },
            Kc::L => {
                proof { reveal_strlit("L"); }
                "L"
            },
            Kc::M => {
                proof { reveal_strlit("M"); }
                "M"
            },
            Kc::N => {
                proof { reveal_strlit("N"); }
                "N"
            },
            Kc::O => {
                proof { reveal_strlit("O"); }
                "O"
            },
            Kc::P => {
                proof { reveal_strlit("P"); }
                "P"
            },
            Kc::Q => {
                proof { reveal_strlit("Q"); }
                "Q"
            },
            Kc::R => {
                proof { reveal_strlit("R"); }
                "R"
            },
            Kc::S => {
                proof { reveal_strlit("S"); }
                "S"
            },
            Kc::T => {
                proof { reveal_strlit("T"); }
                "T"
            },
            Kc::U => {
                proof { reveal_strlit("U"); }
                "U"
            },
            Kc::V => {
                proof { reveal_strlit("V"); }
                "V"
            },
            Kc::W => {
                proof { reveal_strlit("W"); }
                "W"
            },
            Kc::X => {
                proof { reveal_strlit("X"); }
                "X"
            },
            Kc::Y => {
                proof { reveal_strlit("Y"); }
                "Y"
            },
            Kc::Z => {
                proof { reveal_strlit("Z"); }
                "Z"
            },
            Kc::F1 => {
                proof { reveal_strlit("F1"); }
                "F1"
            },
            Kc::F2 => {
                proof { reveal_strlit("F2"); }
                "F2"
            },
            Kc::F3 => {
                proof { reveal_strlit("F3"); }
                "F3"
            },
            Kc::F4 => {
                proof { reveal_strlit("F4"); }
                "F4"
            },
            Kc::F5 => {
                proof { reveal_strlit("F5"); }
                "F5"
            },
            Kc::F6 => {
                proof { reveal_strlit("F6"); }
                "F6"
            },
            Kc::F7 => {
                proof { reveal_strlit("F7"); }
                "F7"
            },
            Kc::F8 => {
                proof { reveal_strlit("F8"); }
                "F8"
            },
            Kc::F9 => {
                proof { reveal_strlit("F9"); }
                "F9"
            },
            Kc::F10 => {
                proof { reveal_strlit("F10"); }
                "F10"
            },
            Kc::F11 => {
                proof { reveal_strlit("F11"); }
                "F11"
            },
            Kc::F12 => {
                proof { reveal_strlit("F12"); }
                "F12"
            },
            Kc::Ctrl => {
                proof { reveal_strlit("Ctrl"); }
                "Ctrl"
            },
            Kc::Shift => {
                proof { reveal_strlit("Shift"); }
                "Shift"
            },
            Kc::Alt => {
                proof { reveal_strlit("Alt"); }
                "Alt"
            },
            Kc::Super => {
                proof { reveal_strlit("Super"); }
                "Super"
            },
            Kc::Enter => {
                proof { reveal_strlit("Enter"); }
                "Enter"
            },
            Kc::Esc => {
                proof { reveal_strlit("Esc"); }
                "Esc"
            },
            Kc::Backspace => {
                proof { reveal_strlit("Backspace"); }
                "Backspace"
            },
            Kc::Tab => {
                proof { reveal_strlit("Tab"); }
                "Tab"
            },
            Kc::Space => {
                proof { reveal_strlit("Space"); }
                "Space"
            },
            Kc::Insert => {
                proof { reveal_strlit("Insert"); }
                "Insert"
            },
            Kc::Delete => {
                proof { reveal_strlit("Delete"); }
                "Delete"
            },
            Kc::Home => {
                proof { reveal_strlit("Home"); }
                "Home"
            },
            Kc::End => {
                proof { reveal_strlit("End"); }
                "End"
            },
            Kc::PageUp => {
                proof { reveal_strlit("PageUp"); }
                "PageUp"
            },
            Kc::PageDn => {
                proof { reveal_strlit("PageDn"); }
                "PageDn"
            },
            Kc::Up => {
                proof { reveal_strlit("Up"); }
                "Up"
            },
            Kc::Down => {
                proof { reveal_strlit("Down"); }
                "Down"
            },
            Kc::Left => {
                proof { reveal_strlit("Left"); }
                "Left"
            },
            Kc::Right => {
                proof { reveal_strlit("Right"); }
                "Right"
            },
            Kc::NumLock => {
                proof { reveal_strlit("NumLock"); }
                "NumLock"
            },
            Kc::ScrollLock => {
                proof { reveal_strlit("ScrollLock"); }
                "ScrollLock"
            },
            Kc::MediaVolDown => {
                proof { reveal_strlit("MediaVolDown"); }
                "MediaVolDown"
            },
            Kc::Pause => {
                proof { reveal_strlit("Pause"); }
                "Pause"
            },
            Kc::App => {
                proof { reveal_strlit("App"); }
                "App"
            },
    }
}

/// Whether `k` is a modifier key.
pub fn is_mod(k: Kc) -> (r: bool)
    ensures
        r == spec_is_mod(k),
{
    match k {
        Kc::Ctrl | Kc::Shift | Kc::Alt | Kc::Super => true,
        _ => false,
    }
}

/// Equality of string slices.
#[verifier::external_body]
fn str_eq(a: &str, b: &str) -> (r: bool)
    ensures
        r == (a@ == b@),
{
    a == b
}

/// The first key code, from position `j` on among those text can name, written as `s`.
pub open spec fn kc_search(s: Seq<char>, j: int) -> Option<Kc>
    decreases NUM_NAMED_KC - j,
{
    if j < 0 || j >= NUM_NAMED_KC {
        None
    } else if spec_kc_name(spec_kc_from_index(j)) == s {
        Some(spec_kc_from_index(j))
    } else {
        kc_search(s, j + 1)
    }
}

/// The position of the key code, among those text can name, whose text is `s`; -1 if
/// there is none.
pub open spec fn name_position(s: Seq<char>) -> int {
    if s =~= seq!['N', 'o', 'n', 'e'] { 0 }
    else if s =~= seq!['0'] { 1 }
    else if s =~= seq!['1'] { 2 }
    else if s =~= seq!['2'] { 3 }
    else if s =~= seq!['3'] { 4 }
    else if s =~= seq!['4'] { 5 }
    else if s =~= seq!['5'] { 6 }
    else if s =~= seq!['6'] { 7 }
    else if s =~= seq!['7'] { 8 }
    else if s =~= seq!['8'] { 9 }
    else if s =~= seq!['9'] { 10 }
    else if s =~= seq![')'] { 11 }
    else if s =~= seq!['!'] { 12 }
    else if s =~= seq!['@'] { 13 }
    else if s =~= seq!['#'] { 14 }
    else if s =~= seq!['$'] { 15 }
    else if s =~= seq!['%'] { 16 }
    else if s =~= seq!['^'] { 17 }
    else if s =~= seq!['&'] { 18 }
    else if s =~= seq!['*'] { 19 }
    else if s =~= seq!['('] { 20 }
    else if s =~= seq!['-'] { 21 }
    else if s =~= seq!['='] { 22 }
    else if s =~= seq!['['] { 23 }
    else if s =~= seq![']'] { 24 }
    else if s =~= seq!['\\'] { 25 }
    else if s =~= seq!['`'] { 26 }
    else if s =~= seq!['\''] { 27 }
    else if s =~= seq![';'] { 28 }
    else if s =~= seq![','] { 29 }
    else if s =~= seq!['.'] { 30 }
    else if s =~= seq!['/'] { 31 }
    else if s =~= seq!['_'] { 32 }
    else if s =~= seq!['+'] { 33 }
    else if s =~= seq!['{'] { 34 }
    else if s =~= seq!['}'] { 35 }
    else if s =~= seq!['|'] { 36 }
    else if s =~= seq!['~'] { 37 }
    else if s =~= seq!['"'] { 38 }
    else if s =~= seq![':'] { 39 }
    else if s =~= seq!['<'] { 40 }
    else if s =~= seq!['>'] { 41 }
    else if s =~= seq!['?'] { 42 }
    else if s =~= seq!['a'] { 43 }
    else if s =~= seq!['b'] { 44 }
    else if s =~= seq!['c'] { 45 }
    else if s =~= seq!['d'] { 46 }
    else if s =~= seq!['e'] { 47 }
    else if s =~= seq!['f'] { 48 }
    else if s =~= seq!['g'] { 49 }
    else if s =~= seq!['h'] { 50 }
    else if s =~= seq!['i'] { 51 }
    else if s =~= seq!['j'] { 52 }
    else if s =~= seq!['k'] { 53 }
    else if s =~= seq!['l'] { 54 }
    else if s =~= seq!['m'] { 55 }
    else if s =~= seq!['n'] { 56 }
    else if s =~= seq!['o'] { 57 }
    else if s =~= seq!['p'] { 58 }
    else if s =~= seq!['q'] { 59 }
    else if s =~= seq!['r'] { 60 }
    else if s =~= seq!['s'] { 61 }
    else if s =~= seq!['t'] { 62 }
    else if s =~= seq!['u'] { 63 }
    else if s =~= seq!['v'] { 64 }
    else if s =~= seq!['w'] { 65 }
    else if s =~= seq!['x'] { 66 }
    else if s =~= seq!['y'] { 67 }
    else if s =~= seq!['z'] { 68 }
    else if s =~= seq!['F', '1'] { 69 }
    else if s =~= seq!['F', '2'] { 70 }
    else if s =~= seq!['F', '3'] { 71 }
    else if s =~= seq!['F', '4'] { 72 }
    else if s =~= seq!['F', '5'] { 73 }
    else if s =~= seq!['F', '6'] { 74 }
    else if s =~= seq!['F', '7'] { 75 }
    else if s =~= seq!['F', '8'] { 76 }
    else if s =~= seq!['F', '9'] { 77 }
    else if s =~= seq!['F', '1', '0'] { 78 }
    else if s =~= seq!['F', '1', '1'] { 79 }
    else if s =~= seq!['F', '1', '2'] { 80 }
    else { -1 }
}

/// The text of a key code that text can name leads back to its position.
proof fn lemma_name_position(k: Kc)
    requires
        spec_kc_index(k) < NUM_NAMED_KC,
    ensures
        name_position(spec_kc_name(k)) == spec_kc_index(k),
{
    match k {
        Kc::No => {},
        Kc::Num0 => {},
        Kc::Num1 => {},
        Kc::Num2 => {},
        Kc::Num3 => {},
        Kc::Num4 => {},
        Kc::Num5 => {},
        Kc::Num6 => {},
        Kc::Num7 => {},
        Kc::Num8 => {},
        Kc::Num9 => {},
        Kc::RightParen => {},
        Kc::Exclamation => {},
        Kc::AtSign => {},
        Kc::Hash => {},
        Kc::DollarSign => {},
        Kc::PercentSign => {},
        Kc::Caret => {},
        Kc::Ampersand => {},
        Kc::Asterisk => {},
        Kc::LeftParen => {},
        Kc::Minus => {},
        Kc::Equals => {},
        Kc::LeftBracket => {},
        Kc::RightBracket => {},
        Kc::Backslash => {},
        Kc::Grave => {},
        Kc::Quote => {},
        Kc::Semicolon => {},
        Kc::Comma => {},
        Kc::Dot => {},
        Kc::Slash => {},
        Kc::Underscore => {},
        Kc::Plus => {},
        Kc::LeftBrace => {},
        Kc::RightBrace => {},
        Kc::Bar => {},
        Kc::Tilde => {},
        Kc::DoubleQuote => {},
        Kc::Colon => {},
        Kc::LeftAngle => {},
        Kc::RightAngle => {},
        Kc::QuestionMark => {},
        Kc::A => {},
        Kc::B => {},
        Kc::C => {},
        Kc::D => {},
        Kc::E => {},
        Kc::F => {},
        Kc::G => {},
        Kc::H => {},
        Kc::I => {},
        Kc::J => {},
        Kc::K => {},
        Kc::L => {},
        Kc::M => {},
        Kc::N => {},
        Kc::O => {},
        Kc::P => {},
        Kc::Q => {},
        Kc::R => {},
        Kc::S => {},
        Kc::T => {},
        Kc::U => {},
        Kc::V => {},
        Kc::W => {},
        Kc::X => {},
        Kc::Y => {},
        Kc::Z => {},
        Kc::F1 => {},
        Kc::F2 => {},
        Kc::F3 => {},
        Kc::F4 => {},
        Kc::F5 => {},
        Kc::F6 => {},
        Kc::F7 => {},
        Kc::F8 => {},
        Kc::F9 => {},
        Kc::F10 => {},
        Kc::F11 => {},
        Kc::F12 => {},
        _ => {},
    }
}

/// `kc_search` from any position up to that of `k` finds `k` from its text.
proof fn lemma_kc_search_finds(k: Kc, j: int)
    requires
        0 <= j <= spec_kc_index(k) < NUM_NAMED_KC,
    ensures
        kc_search(spec_kc_name(k), j) == Some(k),
    decreases spec_kc_index(k) - j,
{
    lemma_kc_index(k);
    if j < spec_kc_index(k) {
        let other = spec_kc_from_index(j);
        lemma_kc_from_index(j);
        lemma_name_position(other);
        lemma_name_position(k);
        lemma_kc_search_finds(k, j + 1);
    }
}

/// Writing a key code that text can name, and reading the text back, gives that key code.
pub proof fn law_kc_name_round_trip(k: Kc)
    requires
        spec_kc_index(k) < NUM_NAMED_KC,
    ensures
        spec_kc_from_str(spec_kc_name(k)) == Some(k),
{
    lemma_kc_search_finds(k, 0);
}

/// The key code written as `s`, if any: the first, up to `F12`, whose text is `s`.
pub open spec fn spec_kc_from_str(s: Seq<char>) -> Option<Kc> {
    kc_search(s, 0)
}

/// What `kc_search` finds is written as `s`.
pub proof fn lemma_kc_search(s: Seq<char>, j: int)
    requires
        0 <= j,
    ensures
        kc_search(s, j) matches Some(k) ==> spec_kc_name(k) == s,
    decreases NUM_NAMED_KC - j,
{
    if j < NUM_NAMED_KC {
        lemma_kc_search(s, j + 1);
    }
}

/// The key code written as `s`, if any.
pub fn kc_from_str(s: &str) -> (r: Option<Kc>)
    ensures
        r == spec_kc_from_str(s@),
        r matches Some(k) ==> spec_kc_name(k) == s@,
{
    proof {
        lemma_kc_search(s@, 0);
    }
    let mut i: u8 = 0;
    while i < NUM_NAMED_KC
        invariant
            i <= NUM_NAMED_KC,
            kc_search(s@, i as int) == spec_kc_from_str(s@),
        decreases NUM_NAMED_KC - i,
    {
        let k = kc_from_index(i);
        if str_eq(s, kc_name(k)) {
            return Some(k);
        }
        i = i + 1;
    }
    None
}

/// Error returned when text does not name a key code.
#[derive(Debug, Clone, Copy, PartialEq, Eq)]
pub struct ParseKcError;

impl Kc {
    /// The text this key code is written as.
    pub fn to_string(&self) -> (r: String)
        ensures
            r@ == spec_kc_name(*self),
    {
        kc_name(*self).to_owned()
    }
}

impl std::str::FromStr for Kc {
    type Err = ParseKcError;

    fn from_str(s: &str) -> (r: Result<Kc, ParseKcError>)
        ensures
            r matches Ok(k) ==> spec_kc_from_str(s@) == Some(k) && spec_kc_name(k) == s@,
            r is Err <==> spec_kc_from_str(s@) is None,
    {
        match kc_from_str(s) {
            Some(k) => Ok(k),
            None => Err(ParseKcError),
        }
    }
}

impl Default for Kc {
    fn default() -> (r: Self)
        ensures
            r == Kc::No,
    {
        Kc::No
    }
}

impl From<Kc> for i8 {
    fn from(k: Kc) -> (r: i8) {
        kc_index(k) as i8
    }
}

impl vstd::std_specs::convert::FromSpecImpl<Kc> for i8 {
    open spec fn obeys_from_spec() -> bool {
        true
    }

    open spec fn from_spec(k: Kc) -> i8 {
        spec_kc_index(k) as i8
    }
}

/// The QWERTY layout of the thirty main keys, row by row.
pub const QWERTY: [Kc; 30] = [
    Kc::Q, Kc::W, Kc::E, Kc::R, Kc::T, Kc::Y, Kc::U, Kc::I, Kc::O, Kc::P,
    Kc::A, Kc::S, Kc::D, Kc::F, Kc::G, Kc::H, Kc::J, Kc::K, Kc::L, Kc::Semicolon,
    Kc::Z, Kc::X, Kc::C, Kc::V, Kc::B, Kc::N, Kc::M, Kc::Comma, Kc::Dot, Kc::Slash,
];

/// The Colemak-DHm layout of the thirty main keys, row by row.
pub const COLEMAK_DHM: [Kc; 30] = [
    Kc::Q, Kc::W, Kc::F, Kc::P, Kc::B, Kc::J, Kc::L, Kc::U, Kc::Y, Kc::Semicolon,
    Kc::A, Kc::R, Kc::S, Kc::T, Kc::G, Kc::M, Kc::N, Kc::E, Kc::I, Kc::O,
    Kc::Z, Kc::X, Kc::C, Kc::D, Kc::V, Kc::K, Kc::H, Kc::Comma, Kc::Dot, Kc::Slash,
];

/// Whether bit `i` of `bits` is set.
pub open spec fn bit_at(bits: u128, i: u128) -> bool {
    (bits >> i) & 1u128 == 1u128
}

proof fn lemma_bit_insert(a: u128, i: u128, j: u128)
    by (bit_vector)
    requires
        i < 128,
        j < 128,
    ensures
        bit_at(a | (1u128 << i), j) == (bit_at(a, j) || i == j),
{
}

proof fn lemma_bit_remove(a: u128, i: u128, j: u128)
    by (bit_vector)
    requires
        i < 128,
        j < 128,
    ensures
        bit_at(a & !(1u128 << i), j) == (bit_at(a, j) && i != j),
{
}

proof fn lemma_bit_single(i: u128, j: u128)
    by (bit_vector)
    requires
        i < 128,
        j < 128,
    ensures
        bit_at(1u128 << i, j) == (i == j),
{
}

proof fn lemma_bit_and(a: u128, b: u128, j: u128)
    by (bit_vector)
    requires
        j < 128,
    ensures
        bit_at(a & b, j) == (bit_at(a, j) && bit_at(b, j)),
{
}

proof fn lemma_bit_or(a: u128, b: u128, j: u128)
    by (bit_vector)
    requires
        j < 128,
    ensures
        bit_at(a | b, j) == (bit_at(a, j) || bit_at(b, j)),
{
}

proof fn lemma_bit_andnot(a: u128, b: u128, j: u128)
    by (bit_vector)
    requires
        j < 128,
    ensures
        bit_at(a & !b, j) == (bit_at(a, j) && !bit_at(b, j)),
{
}

/// The bits of the modifier key codes.
pub const MOD_BITS: u128 = 0x1e00000000000000000000u128;

proof fn lemma_mod_bits(j: u128)
    by (bit_vector)
    requires
        j < 128,
    ensures
        bit_at(0x1e00000000000000000000u128, j) == (81 <= j && j <= 84),
{
}

proof fn lemma_bit_zero(j: u128)
    by (bit_vector)
    requires
        j < 128,
    ensures
        !bit_at(0u128, j),
{
}

/// A set of key codes, such as the key codes a single physical key produces.
#[derive(Debug, Copy, Clone, PartialEq, Eq, Structural, Hash, PartialOrd, Ord)]
pub struct KcSet {
    bits: u128,
}

impl View for KcSet {
    type V = Set<Kc>;

    open spec fn view(&self) -> Set<Kc> {
        Set::new(|k: Kc| self.has(k))
    }
}

impl KcSet {
    /// Membership of `k`.
    pub closed spec fn has(self, k: Kc) -> bool {
        bit_at(self.bits, spec_kc_index(k) as u128)
    }

    /// The raw representation, which orders and identifies sets.
    pub closed spec fn spec_bits(self) -> u128 {
        self.bits
    }

    /// The members among the first `n` key codes, in key code order.
    pub closed spec fn elems_upto(self, n: int) -> Seq<Kc>
        decreases n,
    {
        if n <= 0 {
            Seq::empty()
        } else {
            let p = self.elems_upto(n - 1);
            if self.has(spec_kc_from_index(n - 1)) {
                p.push(spec_kc_from_index(n - 1))
            } else {
                p
            }
        }
    }

    /// The members in key code order.
    pub open spec fn elems(self) -> Seq<Kc> {
        self.elems_upto(NUM_KC as int)
    }

    /// The raw representation.
    pub fn bits_value(&self) -> (r: u128)
        ensures
            r == self.spec_bits(),
    {
        self.bits
    }

    /// Sets are identified by their raw representation.
    pub proof fn lemma_bits_injective(a: KcSet, b: KcSet)
        requires
            a.spec_bits() == b.spec_bits(),
        ensures
            a == b,
    {
    }

    proof fn lemma_elems_upto(self, n: int)
        requires
            0 <= n <= NUM_KC,
        ensures
            forall|i: int| 0 <= i < self.elems_upto(n).len()
                ==> spec_kc_index(#[trigger] self.elems_upto(n)[i]) < n
                    && self.has(self.elems_upto(n)[i]),
            forall|i: int, j: int| 0 <= i < j < self.elems_upto(n).len()
                ==> spec_kc_index(#[trigger] self.elems_upto(n)[i])
                    < spec_kc_index(#[trigger] self.elems_upto(n)[j]),
            forall|k: Kc| spec_kc_index(k) < n && self.has(k)
                ==> #[trigger] self.elems_upto(n).contains(k),
        decreases n,
    {
        broadcast use lemma_kc_index, lemma_kc_from_index;
        if n > 0 {
            self.lemma_elems_upto(n - 1);
            let p = self.elems_upto(n - 1);
            assert forall|k: Kc| spec_kc_index(k) < n && self.has(k)
                implies #[trigger] self.elems_upto(n).contains(k) by {
                if spec_kc_index(k) < n - 1 {
                    assert(p.contains(k));
                    let w = choose|w: int| 0 <= w < p.len() && p[w] == k;
                    assert(self.elems_upto(n)[w] == k);
                } else {
                    assert(k == spec_kc_from_index(n - 1));
                    assert(self.elems_upto(n)[p.len() as int] == k);
                }
            }
        }
    }

    proof fn lemma_elems_upto_len(self, n: int)
        ensures
            self.elems_upto(n).len() <= if n < 0 { 0 } else { n },
        decreases n,
    {
        if n > 0 {
            self.lemma_elems_upto_len(n - 1);
        }
    }

    /// A set lists at most two members for each key code in `mods_first`.
    pub proof fn lemma_mods_first_len(self)
        ensures
            self.mods_first().len() <= 2 * NUM_KC,
    {
        self.spec_mods().lemma_elems_upto_len(NUM_KC as int);
        self.spec_minus(self.spec_mods()).lemma_elems_upto_len(NUM_KC as int);
    }

    /// The members, in key code order, are exactly the set.
    pub proof fn lemma_elems(self)
        ensures
            self.elems().no_duplicates(),
            forall|k: Kc| #[trigger] self.elems().contains(k) <==> self.has(k),
            forall|i: int, j: int| 0 <= i < j < self.elems().len()
                ==> spec_kc_index(#[trigger] self.elems()[i])
                    < spec_kc_index(#[trigger] self.elems()[j]),
    {
        broadcast use lemma_kc_index;
        self.lemma_elems_upto(NUM_KC as int);
        assert forall|k: Kc| #[trigger] self.elems().contains(k) implies self.has(k) by {
            let w = choose|w: int| 0 <= w < self.elems().len() && self.elems()[w] == k;
        }
    }

    /// The empty set, as a value.
    pub closed spec fn spec_empty() -> KcSet {
        KcSet { bits: 0 }
    }

    /// This set without the members of `o`, as a value.
    pub closed spec fn spec_minus(self, o: KcSet) -> KcSet {
        KcSet { bits: self.bits & !o.bits }
    }

    /// The modifier keys of this set, as a value.
    pub closed spec fn spec_mods(self) -> KcSet {
        KcSet { bits: self.bits & MOD_BITS }
    }

    /// The members of the values above.
    pub proof fn lemma_values(a: KcSet, b: KcSet)
        ensures
            forall|k: Kc| !(#[trigger] KcSet::spec_empty().has(k)),
            forall|k: Kc| #[trigger] a.spec_minus(b).has(k) == (a.has(k) && !b.has(k)),
            forall|k: Kc| #[trigger] a.spec_mods().has(k) == (a.has(k) && spec_is_mod(k)),
    {
        assert forall|k: Kc| !(#[trigger] KcSet::spec_empty().has(k)) by {
            lemma_kc_index(k);
            lemma_bit_zero(spec_kc_index(k) as u128);
        }
        assert forall|k: Kc| #[trigger] a.spec_minus(b).has(k) == (a.has(k) && !b.has(k)) by {
            lemma_kc_index(k);
            lemma_bit_andnot(a.bits, b.bits, spec_kc_index(k) as u128);
        }
        assert forall|k: Kc| #[trigger] a.spec_mods().has(k) == (a.has(k) && spec_is_mod(k)) by {
            lemma_kc_index(k);
            lemma_bit_and(a.bits, MOD_BITS, spec_kc_index(k) as u128);
            lemma_mod_bits(spec_kc_index(k) as u128);
            if 81 <= spec_kc_index(k) <= 84 {
                assert(spec_is_mod(spec_kc_from_index(spec_kc_index(k))));
            }
        }
    }

    /// The empty set.
    pub fn new() -> (r: KcSet)
        ensures
            r == KcSet::spec_empty(),
            r@ == Set::<Kc>::empty(),
            forall|k: Kc| !r.has(k),
    {
        let r = KcSet { bits: 0 };
        proof {
            assert forall|k: Kc| !r.has(k) by {
                lemma_kc_index(k);
                lemma_bit_zero(spec_kc_index(k) as u128);
            }
            assert(r@ =~= Set::<Kc>::empty());
        }
        r
    }

    /// Whether `k` is a member.
    pub fn contains(&self, k: Kc) -> (r: bool)
        ensures
            r == self.has(k),
    {
        let i = kc_index(k);
        (self.bits >> (i as u128)) & 1u128 == 1u128
    }

    /// Adds `k`.
    pub fn insert(&mut self, k: Kc)
        ensures
            forall|j: Kc| final(self).has(j) == (old(self).has(j) || j == k),
            final(self)@ == old(self)@.insert(k),
    {
        let i = kc_index(k);
        let ghost a = self.bits;
        self.bits = self.bits | (1u128 << (i as u128));
        proof {
            assert forall|j: Kc| self.has(j) == (bit_at(a, spec_kc_index(j) as u128) || j == k) by {
                lemma_kc_index(j);
                lemma_bit_insert(a, i as u128, spec_kc_index(j) as u128);
                if spec_kc_index(j) == i as int {
                    lemma_kc_index_injective(j, k);
                }
            }
            assert(self@ =~= old(self)@.insert(k));
        }
    }

    /// Removes `k`.
    pub fn remove(&mut self, k: Kc)
        ensures
            forall|j: Kc| final(self).has(j) == (old(self).has(j) && j != k),
            final(self)@ == old(self)@.remove(k),
    {
        let i = kc_index(k);
        let ghost a = self.bits;
        self.bits = self.bits & !(1u128 << (i as u128));
        proof {
            assert forall|j: Kc| self.has(j) == (bit_at(a, spec_kc_index(j) as u128) && j != k) by {
                lemma_kc_index(j);
                lemma_bit_remove(a, i as u128, spec_kc_index(j) as u128);
                if spec_kc_index(j) == i as int {
                    lemma_kc_index_injective(j, k);
                }
            }
            assert(self@ =~= old(self)@.remove(k));
        }
    }

    /// The set holding only `k`, as a value.
    pub closed spec fn spec_single(k: Kc) -> KcSet {
        KcSet { bits: 1u128 << (spec_kc_index(k) as u128) }
    }

    /// The set holding only `k`.
    pub fn single(k: Kc) -> (r: KcSet)
        ensures
            r == KcSet::spec_single(k),
            forall|j: Kc| r.has(j) == (j == k),
            r@ == Set::<Kc>::empty().insert(k),
    {
        let i = kc_index(k);
        let r = KcSet { bits: 1u128 << (i as u128) };
        proof {
            KcSet::lemma_single(k);
            assert(r == KcSet::spec_single(k));
            assert forall|j: Kc| r@.contains(j) == (j == k) by {
                assert(r.has(j) == (j == k));
            }
            assert(r@ =~= Set::<Kc>::empty().insert(k));
        }
        r
    }

    /// The members of the set holding only `k`.
    pub proof fn lemma_single(k: Kc)
        ensures
            forall|j: Kc| KcSet::spec_single(k).has(j) == (j == k),
    {
        let r = KcSet::spec_single(k);
        let i = spec_kc_index(k) as u128;
        lemma_kc_index(k);
        assert forall|j: Kc| r.has(j) == (j == k) by {
            lemma_kc_index(j);
            lemma_bit_single(i, spec_kc_index(j) as u128);
            if spec_kc_index(j) == i as int {
                lemma_kc_index_injective(j, k);
            }
        }
    }

    /// Removes every member.
    pub fn clear(&mut self)
        ensures
            *final(self) == KcSet::spec_empty(),
            forall|j: Kc| !final(self).has(j),
            final(self)@ == Set::<Kc>::empty(),
    {
        *self = KcSet::new();
    }

    /// Whether the set has no member.
    pub fn is_empty(&self) -> (r: bool)
        ensures
            r == (forall|k: Kc| !self.has(k)),
            r == (self@ == Set::<Kc>::empty()),
    {
        let mut i: u8 = 0;
        while i < NUM_KC
            invariant
                i <= NUM_KC,
                forall|j: int| 0 <= j < i ==> !self.has(#[trigger] spec_kc_from_index(j)),
            decreases NUM_KC - i,
        {
            if self.contains(kc_from_index(i)) {
                proof {
                    let k = spec_kc_from_index(i as int);
                    assert(self@.contains(k));
                    assert(self@ != Set::<Kc>::empty());
                }
                return false;
            }
            i = i + 1;
        }
        proof {
            assert forall|k: Kc| !self.has(k) by {
                lemma_kc_index(k);
                assert(!self.has(spec_kc_from_index(spec_kc_index(k))));
            }
            assert(self@ =~= Set::<Kc>::empty());
        }
        true
    }

    /// Whether every member of `o` is a member of this set.
    pub fn is_superset(&self, o: &KcSet) -> (r: bool)
        ensures
            r == (forall|k: Kc| o.has(k) ==> self.has(k)),
            r == o@.subset_of(self@),
    {
        let mut i: u8 = 0;
        while i < NUM_KC
            invariant
                i <= NUM_KC,
                forall|j: int| 0 <= j < i ==>
                    (o.has(#[trigger] spec_kc_from_index(j)) ==> self.has(spec_kc_from_index(j))),
            decreases NUM_KC - i,
        {
            let k = kc_from_index(i);
            if o.contains(k) && !self.contains(k) {
                proof {
                    assert(o@.contains(k) && !self@.contains(k));
                }
                return false;
            }
            i = i + 1;
        }
        proof {
            assert forall|k: Kc| o.has(k) implies self.has(k) by {
                lemma_kc_index(k);
                assert(o.has(spec_kc_from_index(spec_kc_index(k))) ==> self.has(spec_kc_from_index(spec_kc_index(k))));
            }
        }
        true
    }

    /// The members in key code order.
    pub fn to_vec(&self) -> (r: Vec<Kc>)
        ensures
            r@ == self.elems(),
    {
        let mut r: Vec<Kc> = Vec::new();
        let mut i: u8 = 0;
        while i < NUM_KC
            invariant
                i <= NUM_KC,
                r@ == self.elems_upto(i as int),
            decreases NUM_KC - i,
        {
            let k = kc_from_index(i);
            if self.contains(k) {
                r.push(k);
            }
            i = i + 1;
        }
        r
    }

    /// The number of members.
    pub fn len(&self) -> (r: usize)
        ensures
            r == self.elems().len(),
    {
        self.to_vec().len()
    }

    /// The modifier keys among the members.
    pub fn mods(&self) -> (r: KcSet)
        ensures
            r == self.spec_mods(),
            forall|k: Kc| r.has(k) == (self.has(k) && spec_is_mod(k)),
            r@ == self@.filter(|k: Kc| spec_is_mod(k)),
    {
        let r = KcSet { bits: self.bits & MOD_BITS };
        proof {
            KcSet::lemma_values(*self, *self);
            assert(r == self.spec_mods());
            assert forall|k: Kc| r@.contains(k) == self@.filter(|k: Kc| spec_is_mod(k)).contains(k) by {
                assert(r.has(k) == (self.has(k) && spec_is_mod(k)));
            }
            assert(r@ =~= self@.filter(|k: Kc| spec_is_mod(k)));
        }
        r
    }

    /// The members with the modifiers first: the modifiers in key code order, then the
    /// other members in key code order.
    pub open spec fn mods_first(self) -> Seq<Kc> {
        self.spec_mods().elems() + self.spec_minus(self.spec_mods()).elems()
    }

    /// `mods_first` lists each member once, and nothing else.
    pub proof fn lemma_mods_first(self)
        ensures
            self.mods_first().no_duplicates(),
            forall|k: Kc| #[trigger] self.mods_first().contains(k) <==> self.has(k),
    {
        let m = self.spec_mods();
        let o = self.spec_minus(m);
        KcSet::lemma_values(self, m);
        KcSet::lemma_values(self, self);
        m.lemma_elems();
        o.lemma_elems();
        let a = m.elems();
        let b = o.elems();
        assert forall|k: Kc| #[trigger] (a + b).contains(k) <==> self.has(k) by {
            if (a + b).contains(k) {
                let w = choose|w: int| 0 <= w < (a + b).len() && (a + b)[w] == k;
                if w < a.len() {
                    assert(a.contains(k));
                } else {
                    assert(b[w - a.len()] == k);
                    assert(b.contains(k));
                }
            }
            if self.has(k) {
                if spec_is_mod(k) {
                    assert(m.has(k));
                    assert(a.contains(k));
                    let w = choose|w: int| 0 <= w < a.len() && a[w] == k;
                    assert((a + b)[w] == k);
                } else {
                    assert(o.has(k));
                    assert(b.contains(k));
                    let w = choose|w: int| 0 <= w < b.len() && b[w] == k;
                    assert((a + b)[a.len() + w] == k);
                }
            }
        }
        assert forall|i: int, j: int| 0 <= i < j < (a + b).len() implies (a + b)[i] != (a + b)[j] by {
            if j < a.len() {
            } else if i >= a.len() {
                assert(b[i - a.len()] != b[j - a.len()]);
            } else {
                assert(a.contains(a[i]));
                assert(b.contains(b[j - a.len()]));
                assert(m.has(a[i]));
                assert(o.has(b[j - a.len()]));
            }
        }
    }

    /// The members with the modifiers first, each group in key code order.
    pub fn to_vec_mods_first(&self) -> (r: Vec<Kc>)
        ensures
            r@ == self.mods_first(),
    {
        let m = self.mods();
        let mut o = *self;
        o.remove_all(m);
        let mut r = m.to_vec();
        let mut rest = o.to_vec();
        r.append(&mut rest);
        r
    }

    /// The members of this set and of `o`.
    pub fn union(&self, o: &KcSet) -> (r: KcSet)
        ensures
            forall|k: Kc| r.has(k) == (self.has(k) || o.has(k)),
            r@ == self@.union(o@),
    {
        let r = KcSet { bits: self.bits | o.bits };
        proof {
            assert forall|k: Kc| r.has(k) == (self.has(k) || o.has(k)) by {
                lemma_kc_index(k);
                lemma_bit_or(self.bits, o.bits, spec_kc_index(k) as u128);
            }
            assert(r@ =~= self@.union(o@));
        }
        r
    }

    /// Removes every member of `o`.
    pub fn remove_all(&mut self, o: KcSet)
        ensures
            *final(self) == old(self).spec_minus(o),
            forall|k: Kc| final(self).has(k) == (old(self).has(k) && !o.has(k)),
            final(self)@ == old(self)@.difference(o@),
    {
        self.bits = self.bits & !o.bits;
        proof {
            KcSet::lemma_values(*old(self), o);
            assert(*self == old(self).spec_minus(o));
            assert forall|k: Kc| self@.contains(k) == old(self)@.difference(o@).contains(k) by {
                assert(self.has(k) == (old(self).has(k) && !o.has(k)));
            }
            assert(self@ =~= old(self)@.difference(o@));
        }
    }
}

/// A key code event: the key codes `kcset` are pressed (`press`) or released.
#[derive(Debug, Copy, Clone, PartialEq, Eq, Structural, Hash, PartialOrd, Ord)]
pub struct KeyEv {
    pub kcset: KcSet,
    pub press: bool,
}

impl KeyEv {
    pub fn new(kcset: KcSet, press: bool) -> (r: KeyEv)
        ensures
            r == (KeyEv { kcset, press }),
    {
        KeyEv { kcset, press }
    }

    pub fn press(kcset: KcSet) -> (r: KeyEv)
        ensures
            r == (KeyEv { kcset, press: true }),
    {
        KeyEv { kcset, press: true }
    }

    pub fn release(kcset: KcSet) -> (r: KeyEv)
        ensures
            r == (KeyEv { kcset, press: false }),
    {
        KeyEv { kcset, press: false }
    }
}

/// A physical key event: physical key number `phys` is pressed or released.
#[derive(Debug, Copy, Clone, PartialEq, Eq, Structural, Hash, PartialOrd, Ord)]
pub struct PhysEv {
    pub phys: usize,
    pub press: bool,
}

impl PhysEv {
    pub fn new(phys: usize, press: bool) -> (r: PhysEv)
        ensures
            r == (PhysEv { phys, press }),
    {
        PhysEv { phys, press }
    }
}

} // verus!
