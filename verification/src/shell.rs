//! The decisions of the kernel's shell: line editing, splitting a line into a
//! command and its arguments, and what each command prints or asks of the
//! file system. Reading keys, printing and the file system itself are the
//! caller's.

use vstd::prelude::*;
use vstd::string::StringSliceAdditionalSpecFns;

verus! {

/// Backspace.
pub const BS: u8 = 0x08;
/// Bell.
pub const BEL: u8 = 0x07;
/// Line feed.
pub const LF: u8 = 0x0A;
/// Carriage return.
pub const CR: u8 = 0x0D;
/// Delete.
pub const DEL: u8 = 0x7F;
/// Most bytes a line holds.
pub const MAXBUF: usize = 512;
/// Most arguments a command holds.
pub const MAXARGS: usize = 64;

/// What a key does to the line being read: the line after it, what the
/// console shows, and whether it ends the line.
pub open spec fn key_effect(line: Seq<u8>, cap: nat, b: u8) -> (Seq<u8>, Seq<u8>, bool) {
    if (b == BS || b == DEL) && line.len() > 0 {
        (line.drop_last(), seq![BS, 0x20u8, BS], false)
    } else if b == LF || b == CR {
        (line, seq![LF], true)
    } else if line.len() == cap {
        (line, seq![BEL], false)
    } else if 0x20 <= b <= 0x7e {
        (line.push(b), seq![b], false)
    } else {
        (line, seq![BEL], false)
    }
}

/// Every byte is printable ASCII (`' ' ..= '~'`).
pub open spec fn printable(s: Seq<u8>) -> bool {
    forall|i: int| 0 <= i < s.len() ==> 0x20 <= #[trigger] s[i] <= 0x7e
}

/// One key of reading a line of at most `cap` bytes into `line`. Backspace and
/// delete erase the last byte, line feed and carriage return end the line, a
/// printable byte is appended while there is room; anything else rings the
/// bell. Returns what the console shows and whether the line is complete.
pub fn read_line(line: &mut Vec<u8>, cap: usize, byte: u8) -> (r: (Vec<u8>, bool))
    requires
        old(line)@.len() <= cap,
    ensures
        (final(line)@, r.0@, r.1) == key_effect(old(line)@, cap as nat, byte),
        0x20 <= byte <= 0x7e && old(line)@.len() < cap ==> final(line)@ == old(line)@.push(byte)
            && r.0@ == seq![byte] && !r.1,
        final(line)@.len() <= cap,
        printable(old(line)@) ==> printable(final(line)@),
{
    if (byte == BS || byte == DEL) && line.len() > 0 {
        line.pop();
        (vec![BS, 0x20u8, BS], false)
    } else if byte == LF || byte == CR {
        (vec![LF], true)
    } else if line.len() == cap {
        (vec![BEL], false)
    } else if 0x20 <= byte && byte <= 0x7e {
        line.push(byte);
        (vec![byte], false)
    } else {
        (vec![BEL], false)
    }
}

/// The pieces of `s` between spaces, as `str::split(' ')` gives them.
pub open spec fn pieces(s: Seq<u8>) -> Seq<Seq<u8>>
    decreases s.len(),
{
    if s.len() == 0 {
        seq![Seq::<u8>::empty()]
    } else {
        let p = pieces(s.drop_last());
        if s.last() == 0x20 {
            p.push(Seq::<u8>::empty())
        } else {
            p.update(p.len() - 1, p.last().push(s.last()))
        }
    }
}

/// The non-empty pieces, in order.
pub open spec fn non_empty(ps: Seq<Seq<u8>>) -> Seq<Seq<u8>>
    decreases ps.len(),
{
    if ps.len() == 0 {
        ps
    } else {
        let r = non_empty(ps.drop_last());
        if ps.last().len() > 0 {
            r.push(ps.last())
        } else {
            r
        }
    }
}

/// The words of a line: its non-empty pieces between spaces.
pub open spec fn words(s: Seq<u8>) -> Seq<Seq<u8>> {
    non_empty(pieces(s))
}

pub open spec fn views(v: Seq<Vec<u8>>) -> Seq<Seq<u8>> {
    Seq::new(v.len(), |i: int| v[i]@)
}

pub proof fn lemma_pieces_len(s: Seq<u8>)
    ensures
        pieces(s).len() >= 1,
    decreases s.len(),
{
    if s.len() > 0 {
        lemma_pieces_len(s.drop_last());
    }
}

/// `p` starts at the root.
pub open spec fn is_absolute(p: Seq<u8>) -> bool {
    p.len() > 0 && p[0] == 0x2fu8
}

/// The path `p` taken from the directory `pwd`, as `PathBuf::push` joins
/// them: an absolute `p` replaces `pwd`; otherwise `p` follows `pwd` after a
/// separator, unless `pwd` is empty or already ends in one.
pub open spec fn resolve(pwd: Seq<u8>, p: Seq<u8>) -> Seq<u8> {
    if is_absolute(p) {
        p
    } else if pwd.len() == 0 || pwd.last() == 0x2fu8 {
        pwd + p
    } else {
        pwd + seq![0x2fu8] + p
    }
}

/// The words `lo .. hi` of `a`, each followed by a space.
pub open spec fn spaced(a: Seq<Seq<u8>>, lo: int, hi: int) -> Seq<u8>
    decreases hi - lo,
{
    if hi <= lo {
        Seq::empty()
    } else {
        spaced(a, lo, hi - 1) + a[hi - 1] + seq![0x20u8]
    }
}

/// What `echo` prints: its arguments separated by spaces, then a line feed;
/// `echo` alone prints `echo`.
pub open spec fn echo_text(a: Seq<Seq<u8>>) -> Seq<u8> {
    spaced(a, 1, a.len() - 1) + a[a.len() - 1] + seq![LF]
}

/// `ls` is given `-a` as its first argument.
pub open spec fn ls_all(a: Seq<Seq<u8>>) -> bool {
    a.len() > 1 && a[1] == "-a".spec_bytes()
}

/// The arguments of `ls` after the command and `-a`.
pub open spec fn ls_rest(a: Seq<Seq<u8>>) -> Seq<Seq<u8>> {
    if ls_all(a) {
        a.subrange(2, a.len() as int)
    } else {
        a.subrange(1, a.len() as int)
    }
}

/// The directory `ls` lists: its path argument, or `pwd` when there is none.
pub open spec fn ls_path(a: Seq<Seq<u8>>, pwd: Seq<u8>) -> Seq<u8> {
    resolve(pwd, if ls_rest(a).len() < 1 { pwd } else { ls_rest(a)[0] })
}

pub open spec fn opt_view(o: Option<Vec<u8>>) -> Option<Seq<u8>> {
    match o {
        Some(v) => Some(v@),
        None => None,
    }
}

/// What a command asks for.
#[derive(Clone, Debug, PartialEq, Eq)]
pub enum Action {
    /// Print these bytes.
    Print(Vec<u8>),
    /// List the directory at `path` (`all`: `-a` was given); `arg` is the
    /// path argument, if any, which messages name.
    List { path: Vec<u8>, all: bool, arg: Option<Vec<u8>> },
    /// Make the directory at `path` the working directory; `name` is the path
    /// argument, which messages name.
    ChangeDir { path: Vec<u8>, name: Vec<u8> },
    /// Print the file at `path`.
    Cat { path: Vec<u8> },
}

/// `r` is what the command with arguments `a` (the command first) asks for
/// in the working directory `pwd`.
pub open spec fn runs(a: Seq<Seq<u8>>, pwd: Seq<u8>, r: Action) -> bool {
    let cmd = a[0];
    if cmd == "echo".spec_bytes() {
        r matches Action::Print(t) && t@ == echo_text(a)
    } else if cmd == "ls".spec_bytes() {
        r matches Action::List { path, all, arg } && path@ == ls_path(a, pwd) && all == ls_all(a)
            && opt_view(arg) == (if ls_rest(a).len() > 0 {
            Some(ls_rest(a)[0])
        } else {
            None
        })
    } else if cmd == "pwd".spec_bytes() {
        r matches Action::Print(t) && t@ == pwd + seq![LF]
    } else if cmd == "cd".spec_bytes() {
        r matches Action::ChangeDir { path, name } && path@ == resolve(pwd, a[1]) && name@ == a[1]
    } else if cmd == "cat".spec_bytes() {
        r matches Action::Cat { path } && path@ == resolve(pwd, a[1])
    } else {
        r matches Action::Print(t) && t@ == "unknown command: ".spec_bytes() + cmd + seq![LF]
    }
}

/// `out` followed by `s`.
fn append(out: &mut Vec<u8>, s: &[u8])
    ensures
        final(out)@ == old(out)@ + s@,
{
    let mut i: usize = 0;
    while i < s.len()
        invariant
            i <= s.len(),
            out@ == old(out)@ + s@.subrange(0, i as int),
        decreases s.len() - i,
    {
        out.push(s[i]);
        i = i + 1;
        assert(out@ =~= old(out)@ + s@.subrange(0, i as int));
    }
    assert(s@.subrange(0, i as int) =~= s@);
}

/// The bytes of `s` in a new vector.
fn copy(s: &[u8]) -> (r: Vec<u8>)
    ensures
        r@ == s@,
{
    let mut r: Vec<u8> = Vec::new();
    append(&mut r, s);
    assert(r@ =~= s@);
    r
}

/// Whether `a` and `b` hold the same bytes.
fn same(a: &[u8], b: &[u8]) -> (r: bool)
    ensures
        r == (a@ == b@),
{
    if a.len() != b.len() {
        return false;
    }
    let mut i: usize = 0;
    while i < a.len()
        invariant
            i <= a.len() == b.len(),
            forall|j: int| 0 <= j < i ==> a@[j] == b@[j],
        decreases a.len() - i,
    {
        if a[i] != b[i] {
            return false;
        }
        i = i + 1;
    }
    assert(a@ =~= b@);
    true
}

/// The path `p` taken from the directory `pwd`: see `resolve`.
pub fn resolve_path(pwd: &[u8], p: &[u8]) -> (r: Vec<u8>)
    ensures
        r@ == resolve(pwd@, p@),
{
    if p.len() > 0 && p[0] == 0x2fu8 {
        copy(p)
    } else {
        let mut r = copy(pwd);
        if pwd.len() > 0 && pwd[pwd.len() - 1] != 0x2fu8 {
            r.push(0x2fu8);
        }
        append(&mut r, p);
        r
    }
}

/// What the shell prints before reading a line: the working directory, a
/// space and the prefix.
pub fn prompt(pwd: &[u8], prefix: &[u8]) -> (r: Vec<u8>)
    ensures
        r@ == pwd@ + seq![0x20u8] + prefix@,
{
    let mut r = copy(pwd);
    r.push(0x20u8);
    append(&mut r, prefix);
    r
}

/// Error type for `Command` parse failures.
#[derive(Clone, Copy, Debug, PartialEq, Eq, Structural)]
pub enum Error {
    Empty,
    TooManyArgs,
}

/// A structure representing a single shell command.
#[derive(Debug)]
pub struct Command {
    args: Vec<Vec<u8>>,
}

impl View for Command {
    type V = Seq<Seq<u8>>;

    closed spec fn view(&self) -> Seq<Seq<u8>> {
        views(self.args@)
    }
}

impl Command {
    /// Parses a command from the line `s`, holding at most `max_args` arguments.
    ///
    /// # Errors
    ///
    /// If `s` contains no arguments, returns `Error::Empty`. If there are more
    /// arguments than `max_args`, returns `Error::TooManyArgs`.
    pub fn parse(s: &[u8], max_args: usize) -> (r: Result<Command, Error>)
        ensures
            words(s@).len() > max_args ==> r == Err::<Command, Error>(Error::TooManyArgs),
            words(s@).len() == 0 ==> r == Err::<Command, Error>(Error::Empty),
            0 < words(s@).len() <= max_args ==> (r matches Ok(c) && c@ == words(s@)),
            r matches Ok(c) ==> concat(c@) == without_spaces(s@),
    {
        proof {
            law_only_space_separates(s@);
        }
        let mut args: Vec<Vec<u8>> = Vec::new();
        let mut cur: Vec<u8> = Vec::new();
        let mut i: usize = 0;
        proof {
            lemma_pieces_len(s@.subrange(0, 0));
            assert(s@.subrange(0, 0) =~= Seq::<u8>::empty());
            assert(views(args@) =~= non_empty(pieces(s@.subrange(0, 0)).drop_last()));
        }
        while i < s.len()
            invariant
                i <= s.len(),
                pieces(s@.subrange(0, i as int)).len() >= 1,
                views(args@) == non_empty(pieces(s@.subrange(0, i as int)).drop_last()),
                cur@ == pieces(s@.subrange(0, i as int)).last(),
            decreases s.len() - i,
        {
            let c = s[i];
            let ghost before = s@.subrange(0, i as int);
            let ghost after = s@.subrange(0, i + 1);
            let ghost p = pieces(before);
            proof {
                assert(after.drop_last() =~= before);
                assert(after.last() == c);
                lemma_pieces_len(after);
            }
            if c == 0x20u8 {
                assert(pieces(after) == p.push(Seq::<u8>::empty()));
                assert(pieces(after).drop_last() =~= p);
                assert(p =~= p.drop_last().push(p.last()));
                if cur.len() > 0 {
                    let ghost old_args = views(args@);
                    args.push(cur);
                    assert(views(args@) =~= old_args.push(p.last()));
                } else {
                }
                cur = Vec::new();
            } else {
                assert(pieces(after) == p.update(p.len() - 1, p.last().push(c)));
                assert(pieces(after).drop_last() =~= p.drop_last());
                cur.push(c);
            }
            i = i + 1;
        }
        let ghost p = pieces(s@.subrange(0, i as int));
        proof {
            assert(s@.subrange(0, i as int) =~= s@);
            assert(p =~= p.drop_last().push(p.last()));
        }
        if cur.len() > 0 {
            let ghost old_args = views(args@);
            args.push(cur);
            assert(views(args@) =~= old_args.push(p.last()));
        }
        if args.len() > max_args {
            Err(Error::TooManyArgs)
        } else if args.len() == 0 {
            Err(Error::Empty)
        } else {
            Ok(Command { args })
        }
    }
}

impl Command {
    /// Returns this command's path. This is equivalent to the first argument.
    pub fn path(&self) -> (r: &[u8])
        requires
            self@.len() >= 1,
        ensures
            r@ == self@[0],
    {
        self.args[0].as_slice()
    }

    /// The arguments of the command, the command itself first.
    pub fn args(&self) -> (r: Vec<Vec<u8>>)
        ensures
            views(r@) == self@,
    {
        let mut r: Vec<Vec<u8>> = Vec::new();
        let mut i: usize = 0;
        while i < self.args.len()
            invariant
                i <= self.args@.len(),
                r@.len() == i,
                views(r@) == views(self.args@).subrange(0, i as int),
            decreases self.args@.len() - i,
        {
            let w = copy(self.args[i].as_slice());
            let ghost before = r@;
            r.push(w);
            assert(r@[i as int]@ == self.args@[i as int]@);
            assert forall|j: int| 0 <= j < i implies r@[j] == before[j] by {}
            i = i + 1;
            assert(views(r@) =~= views(self.args@).subrange(0, i as int));
        }
        assert(views(self.args@).subrange(0, i as int) =~= views(self.args@));
        r
    }

    /// Decides what the command does with the working directory `pwd`.
    ///
    /// `echo` prints its arguments, `pwd` the working directory, `ls`, `cd`
    /// and `cat` ask for the file system; any other command is reported unknown.
    pub fn exec(&self, pwd: &[u8]) -> (r: Action)
        requires
            self@.len() >= 1,
            self@[0] == "cd".spec_bytes() ==> self@.len() >= 2,
            self@[0] == "cat".spec_bytes() ==> self@.len() >= 2,
        ensures
            runs(self@, pwd@, r),
            self@[0] == "cat".spec_bytes() && is_absolute(self@[1]) ==> (r matches Action::Cat {
                path,
            } && path@ == self@[1]),
    {
        proof {
            lemma_names();
        }
        let ghost a = self@;
        let n = self.args.len();
        let cmd = self.args[0].as_slice();
        assert(cmd@ == a[0]);
        if same(cmd, "echo".as_bytes()) {
            let mut t: Vec<u8> = Vec::new();
            let mut i: usize = 1;
            while i + 1 < n
                invariant
                    n == self.args@.len(),
                    a == self@,
                    n >= 1,
                    1 <= i,
                    i + 1 <= n || i == 1,
                    t@ == spaced(a, 1, i as int),
                decreases n - i,
            {
                append(&mut t, self.args[i].as_slice());
                t.push(0x20u8);
                i = i + 1;
                assert(t@ =~= spaced(a, 1, i as int));
            }
            append(&mut t, self.args[n - 1].as_slice());
            t.push(LF);
            assert(n - 1 <= 1 ==> spaced(a, 1, n - 1) =~= Seq::<u8>::empty());
            assert(t@ =~= echo_text(a));
            Action::Print(t)
        } else if same(cmd, "ls".as_bytes()) {
            let all = n > 1 && same(self.args[1].as_slice(), "-a".as_bytes());
            let first: usize = if all {
                2
            } else {
                1
            };
            assert(ls_rest(a) =~= a.subrange(first as int, n as int));
            let arg = if first < n {
                Some(copy(self.args[first].as_slice()))
            } else {
                None
            };
            let path = if first < n {
                resolve_path(pwd, self.args[first].as_slice())
            } else {
                resolve_path(pwd, pwd)
            };
            Action::List { path, all, arg }
        } else if same(cmd, "pwd".as_bytes()) {
            let mut t = copy(pwd);
            t.push(LF);
            assert(t@ =~= pwd@ + seq![LF]);
            Action::Print(t)
        } else if same(cmd, "cd".as_bytes()) {
            let name = copy(self.args[1].as_slice());
            let path = resolve_path(pwd, self.args[1].as_slice());
            Action::ChangeDir { path, name }
        } else if same(cmd, "cat".as_bytes()) {
            let path = resolve_path(pwd, self.args[1].as_slice());
            Action::Cat { path }
        } else {
            let mut t = copy("unknown command: ".as_bytes());
            append(&mut t, cmd);
            t.push(LF);
            assert(t@ =~= "unknown command: ".spec_bytes() + a[0] + seq![LF]);
            Action::Print(t)
        }
    }
}

/// What opening a path found.
#[derive(Clone, Copy, Debug, PartialEq, Eq, Structural)]
pub enum PathKind {
    /// Opening the path failed.
    Missing,
    /// A directory.
    Directory,
    /// Something that is not a directory.
    Other,
}

/// The kind of a file system error.
#[derive(Clone, Copy, Debug, PartialEq, Eq, Structural)]
pub enum ErrorKind {
    NotFound,
    Other,
    /// Any other kind.
    Unexpected,
}

/// What listing a directory gave: the names of its entries, or an error
/// (`ErrorKind::Other` also where the path is not a directory).
#[derive(Clone, Debug, PartialEq, Eq)]
pub enum ListReply {
    Entries(Vec<Vec<u8>>),
    Failed(ErrorKind),
}

/// What reading a file for `cat` gave.
#[derive(Clone, Debug, PartialEq, Eq)]
pub enum CatReply {
    /// The path could not be opened, or is a directory.
    Unopened,
    /// The file was opened but reading it failed.
    Unread,
    /// The file's contents, which are UTF-8.
    Contents(Vec<u8>),
}

/// The trace that `cat` prints as it goes.
pub open spec fn here() -> Seq<u8> {
    "here\n\n".spec_bytes()
}

/// What `cat` prints for a reply.
pub open spec fn cat_text(reply: CatReply) -> Seq<u8> {
    match reply {
        CatReply::Unopened => here() + here(),
        CatReply::Unread => here() + here() + here(),
        CatReply::Contents(c) => here() + here() + here() + c@ + seq![LF],
    }
}

/// The names, each followed by a line feed.
pub open spec fn lines(names: Seq<Seq<u8>>) -> Seq<u8>
    decreases names.len(),
{
    if names.len() == 0 {
        Seq::empty()
    } else {
        lines(names.drop_last()) + names.last() + seq![LF]
    }
}

/// What `ls` prints for a reply; `arg` is its path argument.
pub open spec fn list_text(reply: ListReply, arg: Option<Seq<u8>>) -> Seq<u8> {
    match reply {
        ListReply::Entries(names) => lines(views(names@)),
        ListReply::Failed(ErrorKind::Other) => "ls: not supported ".spec_bytes() + arg.unwrap()
            + seq![LF],
        ListReply::Failed(ErrorKind::NotFound) => "ls: no such file or directory: ".spec_bytes()
            + arg.unwrap() + seq![LF],
        ListReply::Failed(ErrorKind::Unexpected) => Seq::empty(),
    }
}

/// What `cd` does once the file system has said what is at `path`: a
/// directory becomes the working directory; otherwise a message names `name`.
pub fn change_dir(pwd: &mut Vec<u8>, path: &[u8], name: &[u8], kind: PathKind) -> (msg: Vec<u8>)
    ensures
        kind == PathKind::Directory ==> final(pwd)@ == path@ && msg@ == Seq::<u8>::empty(),
        kind == PathKind::Missing ==> final(pwd)@ == old(pwd)@ && msg@
            == "cd: no such file or directory: ".spec_bytes() + name@ + seq![LF],
        kind == PathKind::Other ==> final(pwd)@ == old(pwd)@ && msg@
            == "cd: not a directory: ".spec_bytes() + name@ + seq![LF],
{
    match kind {
        PathKind::Directory => {
            *pwd = copy(path);
            Vec::new()
        },
        PathKind::Missing => {
            let mut t = copy("cd: no such file or directory: ".as_bytes());
            append(&mut t, name);
            t.push(LF);
            t
        },
        PathKind::Other => {
            let mut t = copy("cd: not a directory: ".as_bytes());
            append(&mut t, name);
            t.push(LF);
            t
        },
    }
}

/// What `ls` prints for a reply; `arg` is its path argument, which a
/// message about a missing or unsupported path names.
pub fn list_output(reply: &ListReply, arg: &Option<Vec<u8>>) -> (r: Vec<u8>)
    requires
        (*reply matches ListReply::Failed(k) && k != ErrorKind::Unexpected) ==> arg.is_some(),
    ensures
        r@ == list_text(*reply, opt_view(*arg)),
{
    match reply {
        ListReply::Entries(names) => {
            let mut t: Vec<u8> = Vec::new();
            let mut i: usize = 0;
            while i < names.len()
                invariant
                    i <= names@.len(),
                    t@ == lines(views(names@).subrange(0, i as int)),
                decreases names@.len() - i,
            {
                append(&mut t, names[i].as_slice());
                t.push(LF);
                i = i + 1;
                assert(views(names@).subrange(0, i as int).drop_last() =~= views(
                    names@,
                ).subrange(0, i - 1));
            }
            assert(views(names@).subrange(0, i as int) =~= views(names@));
            t
        },
        ListReply::Failed(ErrorKind::Other) => {
            let mut t = copy("ls: not supported ".as_bytes());
            match arg {
                Some(a) => append(&mut t, a.as_slice()),
                None => {},
            }
            t.push(LF);
            t
        },
        ListReply::Failed(ErrorKind::NotFound) => {
            let mut t = copy("ls: no such file or directory: ".as_bytes());
            match arg {
                Some(a) => append(&mut t, a.as_slice()),
                None => {},
            }
            t.push(LF);
            t
        },
        ListReply::Failed(ErrorKind::Unexpected) => Vec::new(),
    }
}

/// What `cat` prints for a reply.
pub fn cat_output(reply: &CatReply) -> (r: Vec<u8>)
    ensures
        r@ == cat_text(*reply),
        *reply matches CatReply::Contents(c) ==> r@.len() == c@.len() + 19 && r@.subrange(
            18,
            18 + c@.len() as int,
        ) == c@,
{
    proof {
        if let CatReply::Contents(c) = reply {
            law_cat_prints_whole_file(*c);
        }
    }
    let mut t = copy("here\n\n".as_bytes());
    append(&mut t, "here\n\n".as_bytes());
    match reply {
        CatReply::Unopened => {},
        CatReply::Unread => {
            append(&mut t, "here\n\n".as_bytes());
        },
        CatReply::Contents(c) => {
            append(&mut t, "here\n\n".as_bytes());
            append(&mut t, c.as_slice());
            t.push(LF);
        },
    }
    t
}

/// The words of `line` make a command that `exec` can run: `cd` and `cat`
/// need a path argument.
pub open spec fn runnable(line: Seq<u8>) -> bool {
    let w = words(line);
    0 < w.len() <= MAXARGS && (w[0] == "cd".spec_bytes() || w[0] == "cat".spec_bytes()) ==> w.len()
        >= 2
}

/// Decides what the shell does with an entered line: too many arguments are
/// reported, an empty line does nothing, and any other line runs as a command
/// in the working directory `pwd`.
pub fn shell(line: &[u8], pwd: &[u8]) -> (r: Action)
    requires
        runnable(line@),
    ensures
        words(line@).len() > MAXARGS ==> (r matches Action::Print(t) && t@
            == "error: too many arguments\n".spec_bytes()),
        words(line@).len() == 0 ==> (r matches Action::Print(t) && t@ == Seq::<u8>::empty()),
        0 < words(line@).len() <= MAXARGS ==> runs(words(line@), pwd@, r),
{
    match Command::parse(line, MAXARGS) {
        Ok(cmd) => cmd.exec(pwd),
        Err(Error::TooManyArgs) => Action::Print(copy("error: too many arguments\n".as_bytes())),
        Err(Error::Empty) => Action::Print(Vec::new()),
    }
}

/// A path taken from an absolute working directory is absolute, so `cd`
/// keeps the working directory absolute.
pub proof fn law_resolve_keeps_absolute(pwd: Seq<u8>, p: Seq<u8>)
    requires
        is_absolute(pwd),
    ensures
        is_absolute(resolve(pwd, p)),
{
    if !is_absolute(p) {
        if pwd.last() == 0x2fu8 {
            assert((pwd + p)[0] == pwd[0]);
        } else {
            assert((pwd + seq![0x2fu8] + p)[0] == pwd[0]);
        }
    }
}

/// No piece between spaces holds a space.
proof fn lemma_pieces_no_space(s: Seq<u8>)
    ensures
        forall|i: int, j: int|
            0 <= i < pieces(s).len() && 0 <= j < pieces(s)[i].len() ==> #[trigger] pieces(s)[i][j]
                != 0x20u8,
    decreases s.len(),
{
    if s.len() > 0 {
        lemma_pieces_no_space(s.drop_last());
        lemma_pieces_len(s.drop_last());
        let p = pieces(s.drop_last());
        if s.last() != 0x20u8 {
            let q = pieces(s);
            assert forall|i: int, j: int| 0 <= i < q.len() && 0 <= j < q[i].len() implies #[trigger] q[i][j]
                != 0x20u8 by {
                if i == p.len() - 1 && j == p[i].len() {
                } else {
                    assert(q[i][j] == p[i][j]);
                }
            }
        }
    }
}

/// What `non_empty` keeps are non-empty pieces of the input.
proof fn lemma_non_empty(ps: Seq<Seq<u8>>)
    ensures
        forall|i: int|
            0 <= i < non_empty(ps).len() ==> (#[trigger] non_empty(ps)[i]).len() > 0 && exists|
                j: int,
            |
                0 <= j < ps.len() && ps[j] == non_empty(ps)[i],
    decreases ps.len(),
{
    if ps.len() > 0 {
        lemma_non_empty(ps.drop_last());
        let r = non_empty(ps.drop_last());
        assert forall|i: int| 0 <= i < non_empty(ps).len() implies (#[trigger] non_empty(
            ps,
        )[i]).len() > 0 && exists|j: int| 0 <= j < ps.len() && ps[j] == non_empty(ps)[i] by {
            if i < r.len() {
                assert(non_empty(ps)[i] == r[i]);
                let j = choose|j: int| 0 <= j < ps.drop_last().len() && ps.drop_last()[j] == r[i];
                assert(ps[j] == r[i]);
            } else {
                assert(ps[ps.len() - 1] == non_empty(ps)[i]);
            }
        }
    }
}

/// Every argument of a command is non-empty and holds no space.
pub proof fn law_words_are_clean(s: Seq<u8>)
    ensures
        forall|i: int|
            0 <= i < words(s).len() ==> (#[trigger] words(s)[i]).len() > 0 && !words(s)[i].contains(
                0x20u8,
            ),
{
    lemma_pieces_no_space(s);
    lemma_non_empty(pieces(s));
    assert forall|i: int| 0 <= i < words(s).len() implies (#[trigger] words(s)[i]).len() > 0
        && !words(s)[i].contains(0x20u8) by {
        let w = words(s)[i];
        let j = choose|j: int| 0 <= j < pieces(s).len() && pieces(s)[j] == w;
        if w.contains(0x20u8) {
            let k = choose|k: int| 0 <= k < w.len() && w[k] == 0x20u8;
            assert(pieces(s)[j][k] != 0x20u8);
        }
    }
}

/// How line editing treats each key: a printable byte (space included) is
/// appended and echoed while the line has room; backspace and delete erase the
/// last byte of a non-empty line; line feed and carriage return end the line
/// and leave it as it is; every other key rings the bell and changes nothing.
pub proof fn law_line_editing(line: Seq<u8>, cap: nat, b: u8)
    requires
        line.len() <= cap,
    ensures
        0x20 <= b <= 0x7e && line.len() < cap ==> key_effect(line, cap, b) == (
            line.push(b),
            seq![b],
            false,
        ),
        (b == BS || b == DEL) && line.len() > 0 ==> key_effect(line, cap, b) == (
            line.drop_last(),
            seq![BS, 0x20u8, BS],
            false,
        ),
        b == LF || b == CR ==> key_effect(line, cap, b) == (line, seq![LF], true),
        !(b == LF || b == CR) ==> !key_effect(line, cap, b).2,
        !(0x20 <= b <= 0x7e && line.len() < cap) && !((b == BS || b == DEL) && line.len() > 0)
            && !(b == LF || b == CR) ==> key_effect(line, cap, b) == (line, seq![BEL], false),
{
}

/// The bytes of the words, one after the other.
pub open spec fn concat(ws: Seq<Seq<u8>>) -> Seq<u8>
    decreases ws.len(),
{
    if ws.len() == 0 {
        Seq::empty()
    } else {
        concat(ws.drop_last()) + ws.last()
    }
}

/// `s` with every space taken out.
pub open spec fn without_spaces(s: Seq<u8>) -> Seq<u8>
    decreases s.len(),
{
    if s.len() == 0 {
        s
    } else if s.last() == 0x20u8 {
        without_spaces(s.drop_last())
    } else {
        without_spaces(s.drop_last()).push(s.last())
    }
}

proof fn lemma_concat_non_empty(ps: Seq<Seq<u8>>)
    ensures
        concat(non_empty(ps)) == concat(ps),
    decreases ps.len(),
{
    if ps.len() > 0 {
        lemma_concat_non_empty(ps.drop_last());
        if ps.last().len() == 0 {
            assert(concat(ps) =~= concat(ps.drop_last()));
        } else {
            assert(non_empty(ps).drop_last() =~= non_empty(ps.drop_last()));
        }
    }
}

proof fn lemma_concat_pieces(s: Seq<u8>)
    ensures
        concat(pieces(s)) == without_spaces(s),
    decreases s.len(),
{
    if s.len() > 0 {
        let t = s.drop_last();
        lemma_concat_pieces(t);
        lemma_pieces_len(t);
        let p = pieces(t);
        let q = pieces(s);
        assert(q.len() > 0);
        assert(concat(q) == concat(q.drop_last()) + q.last());
        if s.last() == 0x20u8 {
            assert(q == p.push(Seq::<u8>::empty()));
            assert(q.drop_last() =~= p);
            assert(concat(q) =~= concat(p));
            assert(without_spaces(s) == without_spaces(t));
        } else {
            assert(q == p.update(p.len() - 1, p.last().push(s.last())));
            assert(q.drop_last() =~= p.drop_last());
            assert(q.last() == p.last().push(s.last()));
            assert(concat(p) == concat(p.drop_last()) + p.last());
            assert(concat(q) =~= concat(p).push(s.last()));
            assert(without_spaces(s) == without_spaces(t).push(s.last()));
        }
    } else {
        let q = pieces(s);
        assert(q.drop_last() =~= Seq::<Seq<u8>>::empty());
        assert(concat(q) == concat(q.drop_last()) + q.last());
        assert(concat(q) =~= without_spaces(s));
    }
}

proof fn lemma_pieces_no_space_line(s: Seq<u8>)
    requires
        !s.contains(0x20u8),
    ensures
        pieces(s) == seq![s],
    decreases s.len(),
{
    if s.len() > 0 {
        let t = s.drop_last();
        assert(!t.contains(0x20u8)) by {
            if t.contains(0x20u8) {
                let k = choose|k: int| 0 <= k < t.len() && t[k] == 0x20u8;
                assert(s[k] == 0x20u8);
            }
        }
        lemma_pieces_no_space_line(t);
        assert(s.last() != 0x20u8) by {
            assert(s[s.len() - 1] == s.last());
        }
        assert(t.push(s.last()) =~= s);
        let p = pieces(t);
        assert(p == seq![t]);
        assert(pieces(s) == p.update(p.len() - 1, p.last().push(s.last())));
        assert(pieces(s).len() == 1);
        assert(pieces(s)[0] =~= s);
        assert(pieces(s) =~= seq![s]);
    } else {
        assert(s =~= Seq::<u8>::empty());
        assert(pieces(s) =~= seq![s]);
    }
}

/// Only the space separates arguments: the arguments, put back together,
/// are the line without its spaces, and a non-empty line without a space is
/// a single argument, the whole line.
pub proof fn law_only_space_separates(s: Seq<u8>)
    ensures
        concat(words(s)) == without_spaces(s),
        s.len() > 0 && !s.contains(0x20u8) ==> words(s) == seq![s],
{
    lemma_concat_non_empty(pieces(s));
    lemma_concat_pieces(s);
    if s.len() > 0 && !s.contains(0x20u8) {
        lemma_pieces_no_space_line(s);
        let p = seq![s];
        assert(p.drop_last() =~= Seq::<Seq<u8>>::empty());
        assert(non_empty(p.drop_last()) == Seq::<Seq<u8>>::empty());
        assert(p.last() == s);
        assert(non_empty(p) == non_empty(p.drop_last()).push(p.last()));
        assert(non_empty(p) =~= seq![s]);
    }
}

/// The command names differ, and their bytes are those of their letters.
proof fn lemma_names()
    ensures
        "echo".spec_bytes() != "ls".spec_bytes(),
        "echo".spec_bytes() != "pwd".spec_bytes(),
        "echo".spec_bytes() != "cd".spec_bytes(),
        "echo".spec_bytes() != "cat".spec_bytes(),
        "ls".spec_bytes() != "pwd".spec_bytes(),
        "ls".spec_bytes() != "cd".spec_bytes(),
        "ls".spec_bytes() != "cat".spec_bytes(),
        "pwd".spec_bytes() != "cd".spec_bytes(),
        "pwd".spec_bytes() != "cat".spec_bytes(),
        "cd".spec_bytes() != "cat".spec_bytes(),
        here().len() == 6,
{
    reveal_strlit("echo");
    reveal_strlit("ls");
    reveal_strlit("pwd");
    reveal_strlit("cd");
    reveal_strlit("cat");
    reveal_strlit("here\n\n");
    vstd::string::is_ascii_spec_bytes("echo");
    vstd::string::is_ascii_spec_bytes("ls");
    vstd::string::is_ascii_spec_bytes("pwd");
    vstd::string::is_ascii_spec_bytes("cd");
    vstd::string::is_ascii_spec_bytes("cat");
    vstd::string::is_ascii_spec_bytes("here\n\n");
    assert("echo".spec_bytes().len() == 4);
    assert("ls".spec_bytes().len() == 2);
    assert("pwd".spec_bytes().len() == 3);
    assert("cd".spec_bytes().len() == 2);
    assert("cat".spec_bytes().len() == 3);
    assert("ls".spec_bytes()[0] != "cd".spec_bytes()[0]);
    assert("pwd".spec_bytes()[0] != "cat".spec_bytes()[0]);
}

/// `cat` takes its path argument as `cd` does: an absolute argument is the
/// path itself; any other follows the working directory after one separator
/// (none when the directory is empty or already ends in one).
pub proof fn law_cat_path(a: Seq<Seq<u8>>, pwd: Seq<u8>, r: Action, r2: Action)
    requires
        a.len() >= 2,
        a[0] == "cat".spec_bytes(),
        runs(a, pwd, r),
        runs(a.update(0, "cd".spec_bytes()), pwd, r2),
    ensures
        r matches Action::Cat { path } && r2 matches Action::ChangeDir { path: p2, name } && path@
            == p2@,
        is_absolute(a[1]) ==> (r matches Action::Cat { path } && path@ == a[1]),
        !is_absolute(a[1]) && (pwd.len() == 0 || pwd.last() == 0x2fu8) ==> (r matches Action::Cat {
            path,
        } && path@ == pwd + a[1]),
        !is_absolute(a[1]) && !(pwd.len() == 0 || pwd.last() == 0x2fu8) ==> (r matches Action::Cat {
            path,
        } && path@ == pwd + seq![0x2fu8] + a[1]),
{
    lemma_names();
    let a2 = a.update(0, "cd".spec_bytes());
    assert(a2[0] == "cd".spec_bytes());
    assert(a2[1] == a[1]);
}

/// `cat` prints all of a file it read: the 18 bytes of its trace, then every
/// byte of the file, then a line feed.
pub proof fn law_cat_prints_whole_file(c: Vec<u8>)
    ensures
        ({
            let t = cat_text(CatReply::Contents(c));
            &&& t.len() == c@.len() + 19
            &&& t.subrange(18, 18 + c@.len() as int) == c@
            &&& t.last() == LF
        }),
{
    lemma_names();
    let t = cat_text(CatReply::Contents(c));
    assert(t.subrange(18, 18 + c@.len() as int) =~= c@);
}

/// The path an action names; empty for printing.
pub open spec fn action_path(r: Action) -> Seq<u8> {
    match r {
        Action::Print(_) => Seq::empty(),
        Action::List { path, .. } => path@,
        Action::ChangeDir { path, .. } => path@,
        Action::Cat { path } => path@,
    }
}

/// `cd` and `ls` take a path argument as `cat` does: an absolute argument is
/// the path itself; any other follows the working directory after one
/// separator (none when the directory is empty or already ends in one).
pub proof fn law_path_argument(a: Seq<Seq<u8>>, pwd: Seq<u8>, r: Action)
    requires
        a.len() >= 2,
        a[0] == "cd".spec_bytes() || (a[0] == "ls".spec_bytes() && a[1] != "-a".spec_bytes()),
        runs(a, pwd, r),
    ensures
        ({
            let p = action_path(r);
            &&& (r is ChangeDir || r is List)
            &&& is_absolute(a[1]) ==> p == a[1]
            &&& !is_absolute(a[1]) && (pwd.len() == 0 || pwd.last() == 0x2fu8) ==> p == pwd + a[1]
            &&& !is_absolute(a[1]) && !(pwd.len() == 0 || pwd.last() == 0x2fu8) ==> p == pwd
                + seq![0x2fu8] + a[1]
        }),
{
    lemma_names();
    if a[0] == "ls".spec_bytes() {
        assert(!ls_all(a));
        assert(ls_rest(a)[0] == a[1]);
    }
}

/// What `cat` prints when it cannot open the path, or cannot read the file:
/// only its trace, two and three times.
pub proof fn law_cat_trace()
    ensures
        cat_text(CatReply::Unopened).len() == 12,
        cat_text(CatReply::Unread).len() == 18,
{
    lemma_names();
}

/// `ls` prints each name followed by a line feed, in order: listing one more
/// name prints that name and a line feed after what the others print.
pub proof fn law_list_lines(names: Seq<Seq<u8>>, n: Seq<u8>)
    ensures
        lines(Seq::<Seq<u8>>::empty()) == Seq::<u8>::empty(),
        lines(names.push(n)) == lines(names) + n + seq![LF],
        lines(names.push(n)).len() == lines(names).len() + n.len() + 1,
{
    assert(names.push(n).drop_last() =~= names);
}

} // verus!
