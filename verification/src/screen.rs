use vstd::prelude::*;

use crate::text::{decimal, decimal_string, owned, signed_decimal, signed_decimal_string, sub_text};

verus! {

broadcast use vstd::string::group_string_axioms;

/// The colour in which a port number is shown.
#[derive(PartialEq, Eq, Debug, Clone, Copy, Structural)]
pub enum PortColor {
    Green,
    Yellow,
    Magenta,
    White,
}

/// The colour of a port: frontend ports green, backend ports yellow, database
/// ports magenta, others white (a port in two ranges takes the first).
pub open spec fn color_of(port: u16) -> PortColor {
    if 3000 <= port <= 4200 {
        PortColor::Green
    } else if 5000 <= port <= 5173 {
        PortColor::Yellow
    } else if port == 5432 || port == 3306 || port == 6379 || port == 27017 {
        PortColor::Magenta
    } else {
        PortColor::White
    }
}

/// The colour in which a port number is shown.
pub fn port_color(port: u16) -> (r: PortColor)
    ensures
        r == color_of(port),
{
    if 3000 <= port && port <= 4200 {
        PortColor::Green
    } else if 5000 <= port && port <= 5173 {
        PortColor::Yellow
    } else if port == 5432 || port == 3306 || port == 6379 || port == 27017 {
        PortColor::Magenta
    } else {
        PortColor::White
    }
}

/// `s` followed by spaces up to `width` characters (what `{:<width}` prints).
pub open spec fn pad_right(s: Seq<char>, width: nat) -> Seq<char> {
    if s.len() >= width {
        s
    } else {
        s + Seq::new((width - s.len()) as nat, |i: int| ' ')
    }
}

/// `s` followed by spaces up to `width` characters.
pub fn padded(s: &str, width: usize) -> (r: String)
    ensures
        r@ == pad_right(s@, width as nat),
{
    let mut r = owned(s);
    let mut n = s.unicode_len();
    proof {
        reveal_strlit(" ");
    }
    assert(" "@ =~= seq![' ']);
    while n < width
        invariant
            n >= s@.len(),
            n <= width || n == s@.len(),
            " "@ == seq![' '],
            r@ == s@ + Seq::new((n - s@.len()) as nat, |i: int| ' '),
        decreases width - n,
    {
        r.append(" ");
        n = n + 1;
        assert(r@ =~= s@ + Seq::new((n - s@.len()) as nat, |i: int| ' '));
    }
    proof {
        if s@.len() >= width {
            assert(r@ =~= s@);
        }
    }
    r
}

/// The label of a group header.
pub open spec fn group_header_text(name: Seq<char>, count: usize) -> Seq<char> {
    "\u{2500}\u{2500} "@ + name + " ("@ + decimal(count as nat) + ") "@
}

/// The label of a group header: its name and size.
pub fn group_header_label(name: &str, count: usize) -> (r: String)
    ensures
        r@ == group_header_text(name@, count),
{
    let mut s = owned("\u{2500}\u{2500} ");
    s.append(name);
    s.append(" (");
    s.append(decimal_string(count as u64).as_str());
    s.append(") ");
    s
}

/// The port cell of a process row: a colon and the port, padded to five
/// characters.
pub fn port_cell(port: u16) -> (r: String)
    ensures
        r@ == ":"@ + pad_right(decimal(port as nat), 5),
{
    let mut s = owned(":");
    let d = decimal_string(port as u64);
    s.append(padded(d.as_str(), 5).as_str());
    s
}

/// The description cell of a process row: a space and the description, padded
/// to 35 characters.
pub fn description_cell(description: &str) -> (r: String)
    ensures
        r@ == " "@ + pad_right(description@, 35),
{
    let mut s = owned(" ");
    s.append(padded(description, 35).as_str());
    s
}

/// The process id cell of a process row.
pub fn pid_cell(pid: i32) -> (r: String)
    ensures
        r@ == "PID "@ + signed_decimal(pid as int),
{
    let mut s = owned("PID ");
    s.append(signed_decimal_string(pid).as_str());
    s
}

/// The second line of a process row: an arrow and the shortened command line.
pub fn command_line_label(command: &str) -> (r: String)
    ensures
        r@ == "        \u{2192} "@ + command@,
{
    let mut s = owned("        \u{2192} ");
    s.append(command);
    s
}

/// The command line as the footer shows it in a terminal `width` columns wide:
/// whole if it fits in `width - 20` characters, else cut to three fewer and
/// followed by `...`.
pub open spec fn fitted_command(cmd: Seq<char>, width: u16) -> Seq<char> {
    let avail: int = if width >= 20 { width - 20 } else { 0 };
    if cmd.len() > avail {
        cmd.take(if avail >= 3 { avail - 3 } else { 0 }) + "..."@
    } else {
        cmd
    }
}

/// The command line as the footer shows it in a terminal `width` columns wide.
pub fn fit_command(cmd: &str, width: u16) -> (r: String)
    ensures
        r@ == fitted_command(cmd@, width),
{
    let avail: usize = width.saturating_sub(20) as usize;
    let n = cmd.unicode_len();
    if n > avail {
        let keep: usize = avail.saturating_sub(3);
        let mut s = sub_text(cmd, 0, keep);
        s.append("...");
        s
    } else {
        owned(cmd)
    }
}

} // verus!
