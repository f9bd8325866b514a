use colored::{Color, Colorize};
use vstd::prelude::*;
use vstd::string::StringExecFns;

verus! {

/// The sequence that ends a styled span: ESC `[0m`.
pub open spec fn reset_code() -> Seq<char> {
    seq!['\x1b', '[', '0', 'm']
}

/// `s` holds a reset sequence somewhere.
pub open spec fn holds_reset(s: Seq<char>) -> bool {
    exists|i: int| 0 <= i && i + 4 <= s.len() && #[trigger] s.subrange(i, i + 4) == reset_code()
}

/// `p` is one style sequence: ESC `[`, then digits and semicolons, then `m`.
pub open spec fn style_code(p: Seq<char>) -> bool {
    &&& p.len() >= 3
    &&& p[0] == '\x1b'
    &&& p[1] == '['
    &&& p.last() == 'm'
    &&& forall|i: int| 2 <= i < p.len() - 1 ==> ('0' <= #[trigger] p[i] <= '9' || p[i] == ';')
}

/// `r` is `plain` as a styled span may print it: unchanged when colouring is off,
/// else one style sequence, the text and a reset.
pub open spec fn styled(plain: Seq<char>, r: Seq<char>) -> bool {
    ||| r == plain
    ||| holds_reset(plain)
    ||| exists|p: Seq<char>| #[trigger] style_code(p) && r == p + plain + reset_code()
}

/// Decimal digits of `n`, most significant first.
pub open spec fn decimal(n: nat) -> Seq<char>
    decreases n,
{
    if n < 10 {
        seq![digit_char(n)]
    } else {
        decimal(n / 10).push(digit_char(n % 10))
    }
}

pub open spec fn digit_char(d: nat) -> char {
    if d < 10 {
        (('0' as u8) + (d as u8)) as char
    } else {
        '0'
    }
}

/// The sender label before a line: the id in square brackets.
pub open spec fn id_label(id: u16) -> Seq<char> {
    seq!['['] + decimal(id as nat) + seq![']']
}

/// `r` is the line that renders `m`: label, nickname with a colon, and text, then a newline.
pub open spec fn renders(m: Message, r: Seq<char>) -> bool {
    exists|a: Seq<char>, b: Seq<char>|
        #[trigger] styled(id_label(m.id), a) && #[trigger] styled(m.nickname@ + seq![':'], b) && r == a
            + seq![' '] + b + seq![' '] + m.text@ + seq!['\n']
}

/// Relies on std's integer `Display`: a `u16` prints as its decimal digits.
#[verifier::external_body]
fn decimal_digits(id: u16) -> (r: String)
    ensures
        r@ == decimal(id as nat),
{
    id.to_string()
}

/// Relies on colored's `Colorize::dimmed` and the `Display` of `ColoredString`.
#[verifier::external_body]
fn dim(s: &str) -> (r: String)
    ensures
        styled(s@, r@),
{
    s.dimmed().to_string()
}

/// Relies on colored's `Colorize::color`, `Colorize::bold` and the `Display` of `ColoredString`.
#[verifier::external_body]
fn bold_in(s: &str, color: Color) -> (r: String)
    ensures
        styled(s@, r@),
{
    s.color(color).bold().to_string()
}

/// A chat line before rendering.
pub struct Message {
    pub room: String,
    pub id: u16,
    pub nickname: String,
    pub color: Color,
    pub text: String,
}

impl Message {
    pub fn new(room: String, id: u16, nickname: String, color: Color, text: String) -> (m: Message)
        ensures
            m.room == room,
            m.id == id,
            m.nickname == nickname,
            m.color == color,
            m.text == text,
    {
        Message { room, id, nickname, color, text }
    }

    /// The line sent to recipients and kept in history.
    pub fn to_string(&self) -> (r: String)
        ensures
            renders(*self, r@),
    {
        let mut label = String::from_str("[");
        let digits = decimal_digits(self.id);
        label.append(digits.as_str());
        label.append("]");
        let a = dim(label.as_str());
        let mut nick = self.nickname.clone();
        nick.append(":");
        let b = bold_in(nick.as_str(), self.color);
        let mut line = a.clone();
        line.append(" ");
        line.append(b.as_str());
        line.append(" ");
        line.append(self.text.as_str());
        line.append("\n");
        proof {
            reveal_strlit(":");
            reveal_strlit("[");
            reveal_strlit("]");
            assert(label@ =~= id_label(self.id));
            reveal_strlit(" ");
            reveal_strlit("\n");
            assert(nick@ =~= self.nickname@ + seq![':']);
            assert(line@ =~= a@ + seq![' '] + b@ + seq![' '] + self.text@ + seq!['\n']);
            assert(styled(id_label(self.id), a@) && styled(self.nickname@ + seq![':'], b@));
        }
        line
    }
}

} // verus!
