//! Host client: discovery options and transport labels.
use vstd::prelude::*;
use vstd::string::StringExecFns;

verus! {

/// Which transports the discovery probes.
#[derive(Clone, Copy, Debug, PartialEq, Eq, Structural)]
pub struct Options {
    /// Probe serial ports.
    pub serial: bool,
    /// Scan BLE.
    pub ble: bool,
    /// Broadcast on the network.
    pub net: bool,
}

impl Default for Options {
    fn default() -> (r: Self)
        ensures
            r == (Options { serial: true, ble: true, net: true }),
    {
        Options { serial: true, ble: true, net: true }
    }
}

/// Transport of a detected device.
#[derive(Clone, Debug, PartialEq, Eq)]
pub enum TransportKind {
    /// Serial port (port name).
    Serial(String),
    /// BLE (advertised name or peripheral id).
    Ble(String),
}

impl TransportKind {
    /// Label for menus: the kind, padded, then the address.
    pub fn label(&self) -> (r: String)
        ensures
            r@ == match self {
                TransportKind::Serial(p) => "serie  "@ + p@,
                TransportKind::Ble(n) => "BLE    "@ + n@,
            },
    {
        match self {
            TransportKind::Serial(p) => String::from_str("serie  ").concat(p.as_str()),
            TransportKind::Ble(n) => String::from_str("BLE    ").concat(n.as_str()),
        }
    }
}

/// Command-line options of the client.
#[derive(Clone, Debug)]
pub struct Args {
    /// `-h` / `--help`: print the usage and exit.
    pub help: bool,
    /// `--list`: detect, list and exit.
    pub list: bool,
    /// `--no-ble`: do not scan BLE.
    pub no_ble: bool,
    /// `--no-serial`: do not probe serial ports.
    pub no_serial: bool,
    /// `--serial <PORT>`: connect to this port directly.
    pub serial_port: Option<String>,
    /// `--psk <HEX>`: key for the automatic handshake.
    pub psk: Option<String>,
}

/// Abstract value of [`Args`].
pub ghost struct ArgsView {
    pub help: bool,
    pub list: bool,
    pub no_ble: bool,
    pub no_serial: bool,
    pub serial_port: Option<Seq<char>>,
    pub psk: Option<Seq<char>>,
}

/// The value of an optional string.
pub open spec fn opt_view(o: Option<String>) -> Option<Seq<char>> {
    match o {
        Some(s) => Some(s@),
        None => None,
    }
}

impl Args {
    /// The options as plain values.
    pub open spec fn spec_view(&self) -> ArgsView {
        ArgsView {
            help: self.help,
            list: self.list,
            no_ble: self.no_ble,
            no_serial: self.no_serial,
            serial_port: opt_view(self.serial_port),
            psk: opt_view(self.psk),
        }
    }
}

/// No option given.
pub open spec fn no_args() -> ArgsView {
    ArgsView { help: false, list: false, no_ble: false, no_serial: false, serial_port: None, psk: None }
}

/// The options read from `s[i..]` on top of `a`: each flag sets its field,
/// `--serial` and `--psk` take the next word (none when it is missing),
/// unknown words are ignored, and a later occurrence wins.
pub open spec fn args_from(s: Seq<Seq<char>>, i: int, a: ArgsView) -> ArgsView
    decreases s.len() - i,
{
    if i < 0 || i >= s.len() {
        a
    } else {
        let w = s[i];
        if w == "-h"@ || w == "--help"@ {
            args_from(s, i + 1, ArgsView { help: true, ..a })
        } else if w == "--list"@ {
            args_from(s, i + 1, ArgsView { list: true, ..a })
        } else if w == "--no-ble"@ {
            args_from(s, i + 1, ArgsView { no_ble: true, ..a })
        } else if w == "--no-serial"@ {
            args_from(s, i + 1, ArgsView { no_serial: true, ..a })
        } else if w == "--serial"@ {
            if i + 1 < s.len() {
                args_from(s, i + 2, ArgsView { serial_port: Some(s[i + 1]), ..a })
            } else {
                ArgsView { serial_port: None, ..a }
            }
        } else if w == "--psk"@ {
            if i + 1 < s.len() {
                args_from(s, i + 2, ArgsView { psk: Some(s[i + 1]), ..a })
            } else {
                ArgsView { psk: None, ..a }
            }
        } else {
            args_from(s, i + 1, a)
        }
    }
}

/// The words of a command line as plain values.
pub open spec fn words(v: Seq<String>) -> Seq<Seq<char>> {
    Seq::new(v.len(), |i: int| v[i]@)
}

impl Args {
    /// Reads the options from the command-line words (program name
    /// excluded); see [`args_from`].
    pub fn parse(words_in: Vec<String>) -> (r: Args)
        ensures
            r.spec_view() == args_from(words(words_in@), 0, no_args()),
    {
        let ghost s = words(words_in@);
        let mut a = Args { help: false, list: false, no_ble: false, no_serial: false, serial_port: None, psk: None };
        let mut i: usize = 0;
        let help_short = String::from_str("-h");
        let help_long = String::from_str("--help");
        let list = String::from_str("--list");
        let no_ble = String::from_str("--no-ble");
        let no_serial = String::from_str("--no-serial");
        let serial = String::from_str("--serial");
        let psk = String::from_str("--psk");
        while i < words_in.len()
            invariant
                s == words(words_in@),
                i <= words_in@.len(),
                help_short@ == "-h"@,
                help_long@ == "--help"@,
                list@ == "--list"@,
                no_ble@ == "--no-ble"@,
                no_serial@ == "--no-serial"@,
                serial@ == "--serial"@,
                psk@ == "--psk"@,
                args_from(s, i as int, a.spec_view()) == args_from(s, 0, no_args()),
            decreases words_in@.len() - i,
        {
            let w = &words_in[i];
            assert(s[i as int] == w@);
            if *w == help_short || *w == help_long {
                a.help = true;
                i = i + 1;
            } else if *w == list {
                a.list = true;
                i = i + 1;
            } else if *w == no_ble {
                a.no_ble = true;
                i = i + 1;
            } else if *w == no_serial {
                a.no_serial = true;
                i = i + 1;
            } else if *w == serial {
                if i + 1 < words_in.len() {
                    assert(s[i + 1] == words_in@[i + 1]@);
                    a.serial_port = Some(words_in[i + 1].clone());
                    i = i + 2;
                } else {
                    a.serial_port = None;
                    i = words_in.len();
                }
            } else if *w == psk {
                if i + 1 < words_in.len() {
                    assert(s[i + 1] == words_in@[i + 1]@);
                    a.psk = Some(words_in[i + 1].clone());
                    i = i + 2;
                } else {
                    a.psk = None;
                    i = words_in.len();
                }
            } else {
                i = i + 1;
            }
        }
        a
    }
}

/// The device picked from a menu of `count` entries by the 1-based choice
/// `choice`, as an index; `None` when it is out of range.
pub fn menu_index(choice: usize, count: usize) -> (r: Option<usize>)
    ensures
        r == (if 1 <= choice <= count { Some((choice - 1) as usize) } else { None::<usize> }),
{
    if choice == 0 || choice > count {
        None
    } else {
        Some(choice - 1)
    }
}

} // verus!
