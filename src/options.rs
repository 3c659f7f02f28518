//! Settings read from the environment and the command line, and the paging
//! of the remote library's listing.
use vstd::prelude::*;
use crate::text::{chars_of, parse_decimal, parse_spec, string_of};

verus! {

/// Where the music server listens.
#[derive(Debug)]
pub enum ServerAddress {
    /// A Unix socket at this path.
    Unix(String),
    /// A Linux abstract Unix socket with this name.
    Abstract(String),
    /// A host name or address, and a port.
    Tcp(String, u16),
}

/// How to reach the music server.
#[derive(Debug)]
pub struct ServerSettings {
    pub password: Option<String>,
    pub address: ServerAddress,
}

#[derive(Debug, PartialEq, Eq, Structural, Clone, Copy)]
pub enum OptionError {
    /// The port is not a number from 0 to 65535.
    InvalidPort,
    /// The number of cores is not a positive number.
    InvalidCoreCount,
}

pub const DEFAULT_PORT: u16 = 6600;

/// The position of the first `@` of `s`, or `s.len()`.
pub open spec fn first_at(s: Seq<char>) -> int
    decreases s.len(),
{
    if s.len() == 0 {
        0
    } else if s[0] == '@' {
        0
    } else {
        1 + first_at(s.drop_first())
    }
}

proof fn lemma_first_at(s: Seq<char>, i: int)
    requires
        0 <= i <= s.len(),
        forall|j: int| 0 <= j < i ==> s[j] != '@',
    ensures
        first_at(s) == i + first_at(s.skip(i)),
    decreases i,
{
    if i > 0 {
        assert(s.skip(1) =~= s.drop_first());
        lemma_first_at(s.drop_first(), i - 1);
        assert(s.drop_first().skip(i - 1) =~= s.skip(i));
    } else {
        assert(s.skip(0) =~= s);
    }
}

/// The password part of a host setting: what stands before the first `@`,
/// where there is one and it is not the first character.
pub open spec fn password_of(host: Seq<char>) -> Option<Seq<char>> {
    let i = first_at(host);
    if 0 < i < host.len() {
        Some(host.take(i))
    } else {
        None
    }
}

/// The host part of a host setting.
pub open spec fn host_of(host: Seq<char>) -> Seq<char> {
    let i = first_at(host);
    if 0 < i < host.len() {
        host.skip(i + 1)
    } else {
        host
    }
}

/// Reads the server's host and port settings. A host of the form
/// `password@host` carries a password. A host that starts with `/` or `~`
/// is a Unix socket, one that starts with `@` an abstract socket named by
/// what follows the `@`; any other is reached over TCP at `port` (6600
/// where none is set). Without a host, 127.0.0.1 is used.
pub fn server_settings(host: Option<&str>, port: Option<&str>) -> (r: Result<
    ServerSettings,
    OptionError,
>)
    ensures
        r is Err <==> (port matches Some(p) && !(parse_spec(p@) matches Some(n) && n
            <= u16::MAX)),
        r matches Err(e) ==> e == OptionError::InvalidPort,
        r matches Ok(s) ==> match host {
            None => s.password is None && (s.address matches ServerAddress::Tcp(h, p) && h@
                == "127.0.0.1"@ && p == (match port {
                Some(t) => parse_spec(t@)->Some_0 as u16,
                None => DEFAULT_PORT,
            })),
            Some(h) => {
                let name = host_of(h@);
                &&& (match password_of(h@) {
                    Some(pw) => s.password matches Some(x) && x@ == pw,
                    None => s.password is None,
                })
                &&& if name.len() > 0 && (name[0] == '/' || name[0] == '~') {
                    (s.address matches ServerAddress::Unix(a) && a@ == name)
                } else if name.len() > 0 && name[0] == '@' {
                    (s.address matches ServerAddress::Abstract(a) && a@ == name.skip(1))
                } else {
                    (s.address matches ServerAddress::Tcp(a, p) && a@ == name && p == (match port {
                        Some(t) => parse_spec(t@)->Some_0 as u16,
                        None => DEFAULT_PORT,
                    }))
                }
            },
        },
{
    let port_number: u16 = match port {
        Some(p) => {
            let cs = chars_of(p);
            assert(cs@.subrange(0, cs.len() as int) =~= cs@);
            match parse_decimal(&cs, 0, cs.len()) {
                Some(n) => {
                    if n > 65535 {
                        return Err(OptionError::InvalidPort);
                    }
                    n as u16
                },
                None => {
                    return Err(OptionError::InvalidPort);
                },
            }
        },
        None => DEFAULT_PORT,
    };
    let h = match host {
        Some(h) => h,
        None => {
            let local = String::from_str("127.0.0.1");
            return Ok(
                ServerSettings { password: None, address: ServerAddress::Tcp(local, port_number) },
            );
        },
    };
    let cs = chars_of(h);
    let mut i: usize = 0;
    while i < cs.len() && cs[i] != '@'
        invariant
            i <= cs.len(),
            forall|j: int| 0 <= j < i ==> cs@[j] != '@',
        decreases cs.len() - i,
    {
        i = i + 1;
    }
    proof {
        lemma_first_at(cs@, i as int);
        if i < cs.len() {
            assert(first_at(cs@.skip(i as int)) == 0);
        } else {
            assert(cs@.skip(i as int).len() == 0);
        }
    }
    let (password, start) = if 0 < i && i < cs.len() {
        (Some(string_of(&cs, 0, i)), i + 1)
    } else {
        (None, 0)
    };
    assert(password matches Some(x) ==> x@ =~= cs@.take(i as int));
    let name = string_of(&cs, start, cs.len());
    assert(name@ =~= host_of(h@));
    let address = if start < cs.len() && (cs[start] == '/' || cs[start] == '~') {
        ServerAddress::Unix(name)
    } else if start < cs.len() && cs[start] == '@' {
        let a = string_of(&cs, start + 1, cs.len());
        assert(a@ =~= host_of(h@).skip(1));
        ServerAddress::Abstract(a)
    } else {
        ServerAddress::Tcp(name, port_number)
    };
    Ok(ServerSettings { password, address })
}

/// Reads the number of cores to analyze with: absent, or a positive number.
pub fn number_cores(value: Option<&str>) -> (r: Result<Option<usize>, OptionError>)
    ensures
        value is None ==> r == Ok::<Option<usize>, OptionError>(None),
        value matches Some(v) ==> match parse_spec(v@) {
            Some(n) => if n > 0 {
                r == Ok::<Option<usize>, OptionError>(Some(n))
            } else {
                r == Err::<Option<usize>, OptionError>(OptionError::InvalidCoreCount)
            },
            None => r == Err::<Option<usize>, OptionError>(OptionError::InvalidCoreCount),
        },
{
    match value {
        None => Ok(None),
        Some(v) => {
            let cs = chars_of(v);
            assert(cs@.subrange(0, cs.len() as int) =~= cs@);
            match parse_decimal(&cs, 0, cs.len()) {
                Some(n) => if n > 0 {
                    Ok(Some(n))
                } else {
                    Err(OptionError::InvalidCoreCount)
                },
                None => Err(OptionError::InvalidCoreCount),
            }
        },
    }
}

/// Pages through the remote library's listing: each page is the window
/// `[start, start + page_size)`; the listing ends at the first empty page.
pub struct RemoteScan {
    start: u32,
    page_size: u32,
    paths: Vec<String>,
    done: bool,
}

pub const PAGE_SIZE: u32 = 10000;

impl RemoteScan {
    pub closed spec fn start(&self) -> u32 {
        self.start
    }

    pub closed spec fn page_size(&self) -> u32 {
        self.page_size
    }

    /// The paths gathered so far, in order.
    pub closed spec fn paths(&self) -> Seq<String> {
        self.paths@
    }

    pub closed spec fn done(&self) -> bool {
        self.done
    }

    /// A scan from the start, `page_size` paths per page (at least one).
    pub fn new(page_size: u32) -> (r: RemoteScan)
        ensures
            r.start() == 0,
            r.page_size() == if page_size == 0 {
                1
            } else {
                page_size
            },
            r.paths().len() == 0,
            !r.done(),
    {
        RemoteScan {
            start: 0,
            page_size: if page_size == 0 {
                1
            } else {
                page_size
            },
            paths: Vec::new(),
            done: false,
        }
    }

    /// The window of the next page to ask for.
    pub fn window(&self) -> (r: (u32, u32))
        ensures
            r.0 == self.start(),
            r.1 == if self.start() + self.page_size() <= u32::MAX {
                (self.start() + self.page_size()) as u32
            } else {
                u32::MAX
            },
    {
        let end = match self.start.checked_add(self.page_size) {
            Some(e) => e,
            None => u32::MAX,
        };
        (self.start, end)
    }

    /// Takes the page for the current window. An empty page, or a window
    /// that reached the end of the numbering, ends the scan. Says whether
    /// to ask for another page.
    pub fn add_page(&mut self, page: Vec<String>) -> (more: bool)
        ensures
            final(self).page_size() == old(self).page_size(),
            final(self).paths() == old(self).paths() + page@,
            more == !final(self).done(),
            final(self).done() == (old(self).done() || page@.len() == 0 || old(self).start()
                + old(self).page_size() > u32::MAX),
            !final(self).done() ==> final(self).start() == old(self).start() + old(
                self,
            ).page_size(),
    {
        let mut page = page;
        let n = page.len();
        let ghost before = self.paths@;
        let ghost added = page@;
        self.paths.append(&mut page);
        assert(self.paths@ =~= before + added);
        if self.done || n == 0 {
            self.done = true;
            return false;
        }
        match self.start.checked_add(self.page_size) {
            Some(e) => {
                self.start = e;
                true
            },
            None => {
                self.done = true;
                false
            },
        }
    }

    /// The paths gathered.
    pub fn paths_found(&self) -> (r: &Vec<String>)
        ensures
            r@ == self.paths(),
    {
        &self.paths
    }
}

} // verus!
