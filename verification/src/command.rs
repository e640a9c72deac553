//! The command interpreter: lines of text in, one response per line out.

use vstd::prelude::*;
use vstd::slice::slice_subrange;
use crate::bounded::{byte_items, bytes_new, bytes_push, bytes_slice};
use crate::defrag::{cmd_defrag, defragmented};
use crate::files::{
    cmd_create, cmd_list, cmd_read, cmd_remove, cmd_size, create_result, file_data, file_size,
    live_slots, remove_result, FsError,
};
use crate::record::{slot_addr, slot_len, slot_name, FileRec};
use crate::search::{first_index, lemma_first_index_is, lemma_first_index_none};
use crate::storage::{Storage, EEPROM_SIZE, MAX_NAME};
use crate::table::{cmd_format, formatted, lemma_name_len, logical_name, well_formed};
use crate::text::{ascii, decimal, is_word, number_of, parse_len, push_decimal, push_text};

verus! {

/// Capacity of the line buffer, in bytes.
pub const LINE_MAX: usize = 64;

/// The byte that separates fields.
pub const SPACE: u8 = 32;

/// Line feed: ends a line of input and every line of a response.
pub const LF: u8 = 10;

/// Carriage return: ends a line of input.
pub const CR: u8 = 13;

/// What a line asks for.
pub enum Request {
    Format,
    List,
    Defrag,
    Remove { name: Seq<u8> },
    Read { name: Seq<u8> },
    Size { name: Seq<u8> },
    Create { name: Seq<u8>, length: nat, data: Seq<u8> },
}

/// Where the field that starts at `from` ends: at the next space, or at the
/// end of the line.
pub open spec fn field_end(line: Seq<u8>, from: int) -> int {
    match first_index(|k: int| line[k] == SPACE, from, line.len() as int) {
        Some(k) => k,
        None => line.len() as int,
    }
}

/// The field that starts at `from`.
pub open spec fn field_at(line: Seq<u8>, from: int) -> Seq<u8> {
    line.subrange(from, field_end(line, from))
}

/// Where the field after the one at `from` starts, if a space follows that one.
pub open spec fn next_field(line: Seq<u8>, from: int) -> Option<int> {
    if field_end(line, from) < line.len() {
        Some(field_end(line, from) + 1)
    } else {
        None
    }
}

/// The bytes of `s` that are not spaces, in order.
pub open spec fn without_spaces(s: Seq<u8>) -> Seq<u8>
    decreases s.len(),
{
    if s.len() == 0 {
        s
    } else if s.last() == SPACE {
        without_spaces(s.drop_last())
    } else {
        without_spaces(s.drop_last()).push(s.last())
    }
}

/// At most the first `n` items of `s`.
pub open spec fn cut_to(s: Seq<u8>, n: nat) -> Seq<u8> {
    if n < s.len() {
        s.take(n as int)
    } else {
        s
    }
}

/// The payload of a `create` line: the fields from `from` on joined without the
/// spaces between them, cut to the declared length.
pub open spec fn gathered(line: Seq<u8>, from: Option<int>, length: nat) -> Seq<u8> {
    match from {
        Some(start) => cut_to(without_spaces(line.subrange(start, line.len() as int)), length),
        None => Seq::empty(),
    }
}

/// The argument of a command that takes a name, or the syntax error where the
/// name is missing.
pub open spec fn name_arg(line: Seq<u8>) -> Result<Seq<u8>, FsError> {
    match next_field(line, 0) {
        Some(at) => Ok(field_at(line, at)),
        None => Err(FsError::Syntax),
    }
}

/// The arguments of `create`: a name, a declared length, and the payload.
pub open spec fn create_args(line: Seq<u8>) -> Result<Request, FsError> {
    match next_field(line, 0) {
        None => Err(FsError::Syntax),
        Some(name_at) => match next_field(line, name_at) {
            None => Err(FsError::Syntax),
            Some(len_at) => match number_of(field_at(line, len_at)) {
                None => Err(FsError::BadLen),
                Some(length) => Ok(
                    Request::Create {
                        name: field_at(line, name_at),
                        length,
                        data: gathered(line, next_field(line, len_at), length),
                    },
                ),
            },
        },
    }
}

/// The command that a first field selects.
#[derive(Clone, Copy, Debug)]
pub enum Keyword {
    Format,
    List,
    Defrag,
    Remove,
    Read,
    Size,
    Create,
    Unknown,
}

/// The command that the word selects; any other word selects none.
pub open spec fn keyword_of(word: Seq<u8>) -> Keyword {
    if word == ascii("format"@) {
        Keyword::Format
    } else if word == ascii("list"@) {
        Keyword::List
    } else if word == ascii("defrag"@) {
        Keyword::Defrag
    } else if word == ascii("remove"@) {
        Keyword::Remove
    } else if word == ascii("read"@) {
        Keyword::Read
    } else if word == ascii("size"@) {
        Keyword::Size
    } else if word == ascii("create"@) {
        Keyword::Create
    } else {
        Keyword::Unknown
    }
}

/// What a line asks for. The first field selects the command; fields that a
/// command does not take are ignored.
pub open spec fn parse(line: Seq<u8>) -> Result<Request, FsError> {
    match keyword_of(field_at(line, 0)) {
        Keyword::Format => Ok(Request::Format),
        Keyword::List => Ok(Request::List),
        Keyword::Defrag => Ok(Request::Defrag),
        Keyword::Remove => match name_arg(line) {
            Ok(name) => Ok(Request::Remove { name }),
            Err(e) => Err(e),
        },
        Keyword::Read => match name_arg(line) {
            Ok(name) => Ok(Request::Read { name }),
            Err(e) => Err(e),
        },
        Keyword::Size => match name_arg(line) {
            Ok(name) => Ok(Request::Size { name }),
            Err(e) => Err(e),
        },
        Keyword::Create => create_args(line),
        Keyword::Unknown => Err(FsError::UnknownCmd),
    }
}

/// The words that report an error.
pub open spec fn error_text(e: FsError) -> Seq<u8> {
    match e {
        FsError::Syntax => ascii("ERR syntax"@),
        FsError::UnknownCmd => ascii("ERR unknown cmd"@),
        FsError::BadLen => ascii("ERR bad len"@),
        FsError::DataShort => ascii("ERR data short"@),
        FsError::NameExists => ascii("ERR name exists"@),
        FsError::NoSlot => ascii("ERR no slot"@),
        FsError::NoDataSpace => ascii("ERR no data space"@),
        FsError::NoSuchFile => ascii("ERR no such file"@),
    }
}

/// A response of one line.
pub open spec fn one_line(words: Seq<u8>) -> Seq<u8> {
    words.push(LF)
}

/// The line that `list` prints for slot `i`: name, length and address.
pub open spec fn entry_line(img: Seq<u8>, i: int) -> Seq<u8> {
    one_line(
        logical_name(slot_name(img, i)) + ascii(" len="@) + decimal(slot_len(img, i) as nat)
            + ascii(" addr="@) + decimal(slot_addr(img, i) as nat),
    )
}

/// The lines for the first `k` slots that `slots` lists.
pub open spec fn entry_lines(img: Seq<u8>, slots: Seq<int>, k: int) -> Seq<u8>
    decreases k,
{
    if k <= 0 {
        Seq::empty()
    } else {
        entry_lines(img, slots, k - 1) + entry_line(img, slots[k - 1])
    }
}

/// What `list` prints: one line for each live slot, in slot order.
pub open spec fn listing(img: Seq<u8>) -> Seq<u8> {
    entry_lines(img, live_slots(img), live_slots(img).len() as int)
}

/// What carrying out a request does: the image afterwards and the response.
pub open spec fn run(img: Seq<u8>, req: Request) -> (Seq<u8>, Seq<u8>) {
    match req {
        Request::Format => (formatted(img), one_line(ascii("OK format"@))),
        Request::List => (img, listing(img)),
        Request::Defrag => (defragmented(img), one_line(ascii("OK defrag"@))),
        Request::Remove { name } => match remove_result(img, name) {
            Some(after) => (after, one_line(ascii("OK remove"@))),
            None => (img, one_line(error_text(FsError::NoSuchFile))),
        },
        Request::Read { name } => match file_data(img, name) {
            Some(d) => (img, one_line(d)),
            None => (img, one_line(error_text(FsError::NoSuchFile))),
        },
        Request::Size { name } => match file_size(img, name) {
            Some(n) => (img, one_line(decimal(n as nat))),
            None => (img, one_line(error_text(FsError::NoSuchFile))),
        },
        Request::Create { name, length, data } => match create_result(
            img,
            name,
            length as int,
            data,
        ) {
            Ok(after) => (after, one_line(ascii("OK create"@))),
            Err(e) => (img, one_line(error_text(e))),
        },
    }
}

/// What a parsed line does: a request is carried out, an error is reported and
/// leaves the store as it is.
pub open spec fn answer(img: Seq<u8>, parsed: Result<Request, FsError>) -> (Seq<u8>, Seq<u8>) {
    match parsed {
        Ok(req) => run(img, req),
        Err(e) => (img, one_line(error_text(e))),
    }
}

/// What a line does to the store, and the response to it.
pub open spec fn outcome(img: Seq<u8>, line: Seq<u8>) -> (Seq<u8>, Seq<u8>) {
    answer(img, parse(line))
}

/// Finds where the field that starts at `from` ends.
pub fn end_of_field(line: &[u8], from: usize) -> (r: usize)
    requires
        from <= line@.len(),
    ensures
        r == field_end(line@, from as int),
        from <= r <= line@.len(),
{
    let ghost is_space = |k: int| line@[k] == SPACE;
    let mut i: usize = from;
    while i < line.len()
        invariant
            from <= i <= line@.len(),
            is_space == (|k: int| line@[k] == SPACE),
            forall|q: int| from <= q < i ==> !#[trigger] is_space(q),
        decreases line@.len() - i,
    {
        if line[i] == SPACE {
            proof {
                assert(is_space(i as int));
                lemma_first_index_is(is_space, from as int, line@.len() as int, i as int);
            }
            return i;
        }
        assert(!is_space(i as int));
        i += 1;
    }
    proof {
        lemma_first_index_none(is_space, from as int, line@.len() as int);
    }
    i
}

/// Finds where the field after the one at `from` starts.
pub fn start_of_next(line: &[u8], from: usize) -> (r: Option<usize>)
    requires
        from <= line@.len(),
    ensures
        match r {
            Some(at) => next_field(line@, from as int) == Some(at as int) && at <= line@.len(),
            None => next_field(line@, from as int) is None,
        },
{
    let end = end_of_field(line, from);
    if end < line.len() {
        Some(end + 1)
    } else {
        None
    }
}

proof fn lemma_cut_to_push(s: Seq<u8>, b: u8, n: nat)
    ensures
        cut_to(s.push(b), n) == if cut_to(s, n).len() < n {
            cut_to(s, n).push(b)
        } else {
            cut_to(s, n)
        },
{
    if s.len() < n {
        assert(cut_to(s.push(b), n) =~= s.push(b));
    } else {
        assert(s.push(b).take(n as int) =~= s.take(n as int));
        assert(cut_to(s, n) =~= s.take(n as int));
    }
}

/// Collects the payload of a `create` line: the bytes from `from` on that are
/// not spaces, up to `length` of them.
fn gather(line: &[u8], from: Option<usize>, length: usize) -> (data: heapless::Vec<u8, 64>)
    requires
        line@.len() <= LINE_MAX,
        from matches Some(at) ==> at <= line@.len(),
    ensures
        byte_items(data) == gathered(
            line@,
            match from {
                Some(at) => Some(at as int),
                None => None,
            },
            length as nat,
        ),
        byte_items(data).len() <= LINE_MAX,
{
    let mut data = bytes_new();
    let start = match from {
        Some(at) => at,
        None => {
            return data;
        },
    };
    let mut i: usize = start;
    assert(line@.subrange(start as int, start as int) =~= Seq::<u8>::empty());
    while i < line.len()
        invariant
            start <= i <= line@.len(),
            line@.len() <= LINE_MAX,
            byte_items(data).len() <= i - start,
            byte_items(data) == cut_to(
                without_spaces(line@.subrange(start as int, i as int)),
                length as nat,
            ),
        decreases line@.len() - i,
    {
        let b = line[i];
        proof {
            let seen = line@.subrange(start as int, i as int);
            let more = line@.subrange(start as int, i + 1);
            assert(more.drop_last() =~= seen);
            assert(more.last() == b);
            lemma_cut_to_push(without_spaces(seen), b, length as nat);
        }
        if b != SPACE {
            if bytes_slice(&data).len() < length {
                let pushed = bytes_push(&mut data, b);
                assert(pushed is Ok);
            }
        }
        i += 1;
    }
    data
}

/// The words that report an error.
pub fn error_words(e: FsError) -> (w: &'static str)
    ensures
        w.is_ascii(),
        ascii(w@) == error_text(e),
{
    proof {
        reveal_strlit("ERR syntax");
        reveal_strlit("ERR unknown cmd");
        reveal_strlit("ERR bad len");
        reveal_strlit("ERR data short");
        reveal_strlit("ERR name exists");
        reveal_strlit("ERR no slot");
        reveal_strlit("ERR no data space");
        reveal_strlit("ERR no such file");
    }
    match e {
        FsError::Syntax => "ERR syntax",
        FsError::UnknownCmd => "ERR unknown cmd",
        FsError::BadLen => "ERR bad len",
        FsError::DataShort => "ERR data short",
        FsError::NameExists => "ERR name exists",
        FsError::NoSlot => "ERR no slot",
        FsError::NoDataSpace => "ERR no data space",
        FsError::NoSuchFile => "ERR no such file",
    }
}

/// A response of one line that holds the given ASCII words.
fn reply(words: &str) -> (out: Vec<u8>)
    requires
        words.is_ascii(),
    ensures
        out@ == one_line(ascii(words@)),
{
    let mut out: Vec<u8> = Vec::new();
    push_text(&mut out, words);
    out.push(LF);
    assert(out@ =~= one_line(ascii(words@)));
    out
}

/// The response that reports an error.
pub fn error_line(e: FsError) -> (out: Vec<u8>)
    ensures
        out@ == one_line(error_text(e)),
{
    reply(error_words(e))
}

/// Renders what `list` prints: one line for each live slot, in slot order, with
/// the file's name, length and address.
pub fn list_lines(eep: &Storage) -> (out: Vec<u8>)
    requires
        eep@.len() == EEPROM_SIZE,
    ensures
        out@ == listing(eep@),
{
    let recs = cmd_list(eep);
    let ghost img = eep@;
    let ghost live = live_slots(img);
    let mut out: Vec<u8> = Vec::new();
    let mut k: usize = 0;
    while k < recs.len()
        invariant
            k <= recs@.len(),
            recs@.len() == live.len(),
            forall|t: int| 0 <= t < recs@.len() ==> (#[trigger] recs@[t]).is_slot(img, live[t]),
            out@ == entry_lines(img, live, k as int),
        decreases recs@.len() - k,
    {
        let r: FileRec = recs[k];
        let ghost before = out@;
        assert(r.is_slot(img, live[k as int]));
        let mut pos: usize = 0;
        while pos < MAX_NAME && r.name[pos] != 0
            invariant
                pos <= MAX_NAME,
                forall|j: int| 0 <= j < pos ==> r.name@[j] != 0,
                out@ == before + r.name@.take(pos as int),
            decreases MAX_NAME - pos,
        {
            out.push(r.name[pos]);
            assert(r.name@.take(pos + 1) =~= r.name@.take(pos as int).push(r.name@[pos as int]));
            pos += 1;
        }
        proof {
            lemma_name_len(r.name@, pos as int);
            reveal_strlit(" len=");
            reveal_strlit(" addr=");
        }
        push_text(&mut out, " len=");
        push_decimal(&mut out, r.len as u16);
        push_text(&mut out, " addr=");
        push_decimal(&mut out, r.addr);
        out.push(LF);
        assert(out@ =~= before + entry_line(img, live[k as int]));
        k += 1;
    }
    out
}

/// Tells which command a first field selects.
pub fn keyword(word: &[u8]) -> (k: Keyword)
    ensures
        k == keyword_of(word@),
{
    proof {
        reveal_strlit("format");
        reveal_strlit("list");
        reveal_strlit("defrag");
        reveal_strlit("remove");
        reveal_strlit("read");
        reveal_strlit("size");
        reveal_strlit("create");
    }
    if is_word(word, "format") {
        Keyword::Format
    } else if is_word(word, "list") {
        Keyword::List
    } else if is_word(word, "defrag") {
        Keyword::Defrag
    } else if is_word(word, "remove") {
        Keyword::Remove
    } else if is_word(word, "read") {
        Keyword::Read
    } else if is_word(word, "size") {
        Keyword::Size
    } else if is_word(word, "create") {
        Keyword::Create
    } else {
        Keyword::Unknown
    }
}

/// The field after the command word, where the line has one.
fn name_field<'a>(line: &'a [u8]) -> (r: Result<&'a [u8], FsError>)
    ensures
        match name_arg(line@) {
            Ok(name) => r matches Ok(n) && n@ == name,
            Err(e) => r matches Err(x) && x == e,
        },
{
    match start_of_next(line, 0) {
        Some(at) => Ok(slice_subrange(line, at, end_of_field(line, at))),
        None => Err(FsError::Syntax),
    }
}

fn do_remove(eep: &mut Storage, line: &[u8]) -> (out: Vec<u8>)
    requires
        well_formed(old(eep)@),
    ensures
        (final(eep)@, out@) == answer(
            old(eep)@,
            match name_arg(line@) {
                Ok(name) => Ok(Request::Remove { name }),
                Err(e) => Err(e),
            },
        ),
        well_formed(final(eep)@),
{
    proof {
        reveal_strlit("OK remove");
    }
    match name_field(line) {
        Ok(name) => match cmd_remove(eep, name) {
            Ok(()) => reply("OK remove"),
            Err(e) => error_line(e),
        },
        Err(e) => error_line(e),
    }
}

fn do_read(eep: &Storage, line: &[u8]) -> (out: Vec<u8>)
    requires
        well_formed(eep@),
    ensures
        (eep@, out@) == answer(
            eep@,
            match name_arg(line@) {
                Ok(name) => Ok(Request::Read { name }),
                Err(e) => Err(e),
            },
        ),
{
    match name_field(line) {
        Ok(name) => match cmd_read(eep, name) {
            Ok(data) => {
                let mut out = data;
                out.push(LF);
                out
            },
            Err(e) => error_line(e),
        },
        Err(e) => error_line(e),
    }
}

fn do_size(eep: &Storage, line: &[u8]) -> (out: Vec<u8>)
    requires
        well_formed(eep@),
    ensures
        (eep@, out@) == answer(
            eep@,
            match name_arg(line@) {
                Ok(name) => Ok(Request::Size { name }),
                Err(e) => Err(e),
            },
        ),
{
    match name_field(line) {
        Ok(name) => match cmd_size(eep, name) {
            Ok(n) => {
                let mut out: Vec<u8> = Vec::new();
                push_decimal(&mut out, n as u16);
                out.push(LF);
                assert(out@ =~= one_line(decimal(n as nat)));
                out
            },
            Err(e) => error_line(e),
        },
        Err(e) => error_line(e),
    }
}

fn do_create(eep: &mut Storage, line: &[u8]) -> (out: Vec<u8>)
    requires
        well_formed(old(eep)@),
        line@.len() <= LINE_MAX,
    ensures
        (final(eep)@, out@) == answer(old(eep)@, create_args(line@)),
        well_formed(final(eep)@),
{
    proof {
        reveal_strlit("OK create");
    }
    let name_at = match start_of_next(line, 0) {
        Some(at) => at,
        None => {
            return error_line(FsError::Syntax);
        },
    };
    let len_at = match start_of_next(line, name_at) {
        Some(at) => at,
        None => {
            return error_line(FsError::Syntax);
        },
    };
    let name = slice_subrange(line, name_at, end_of_field(line, name_at));
    let length = match parse_len(slice_subrange(line, len_at, end_of_field(line, len_at))) {
        Some(n) => n,
        None => {
            return error_line(FsError::BadLen);
        },
    };
    let data = gather(line, start_of_next(line, len_at), length);
    let payload = bytes_slice(&data);
    if payload.len() != length {
        return error_line(FsError::DataShort);
    }
    match cmd_create(eep, name, length as u8, payload) {
        Ok(()) => reply("OK create"),
        Err(e) => error_line(e),
    }
}

/// Carries out one line of input and returns the response to it.
///
/// The first field selects the command: `format`, `list`, `defrag`,
/// `remove <name>`, `read <name>`, `size <name>` or
/// `create <name> <length> <data...>`. Every response ends with a line feed.
pub fn execute(eep: &mut Storage, line: &[u8]) -> (out: Vec<u8>)
    requires
        well_formed(old(eep)@),
        line@.len() <= LINE_MAX,
    ensures
        final(eep)@ == outcome(old(eep)@, line@).0,
        out@ == outcome(old(eep)@, line@).1,
        well_formed(final(eep)@),
{
    let word = slice_subrange(line, 0, end_of_field(line, 0));
    match keyword(word) {
        Keyword::Format => {
            proof {
                reveal_strlit("OK format");
            }
            cmd_format(eep);
            reply("OK format")
        },
        Keyword::List => list_lines(eep),
        Keyword::Defrag => {
            proof {
                reveal_strlit("OK defrag");
            }
            cmd_defrag(eep);
            reply("OK defrag")
        },
        Keyword::Remove => do_remove(eep, line),
        Keyword::Read => do_read(eep, line),
        Keyword::Size => do_size(eep, line),
        Keyword::Create => do_create(eep, line),
        Keyword::Unknown => error_line(FsError::UnknownCmd),
    }
}

/// The pending line after one more byte: the byte is appended while the buffer
/// has room and dropped once it is full.
pub open spec fn accumulated(line: Seq<u8>, byte: u8) -> Seq<u8> {
    if line.len() < LINE_MAX {
        line.push(byte)
    } else {
        line
    }
}

/// The interpreter's input side: it collects bytes into a line and carries the
/// line out when a line terminator arrives.
pub struct Shell {
    buf: [u8; 64],
    len: usize,
}

impl View for Shell {
    type V = Seq<u8>;

    /// The bytes of the pending line.
    closed spec fn view(&self) -> Seq<u8> {
        self.buf@.take(self.len as int)
    }
}

impl Shell {
    /// The pending line fits the buffer.
    pub closed spec fn wf(&self) -> bool {
        self.len <= LINE_MAX
    }

    /// An interpreter with an empty line buffer.
    pub fn new() -> (s: Shell)
        ensures
            s.wf(),
            s@ == Seq::<u8>::empty(),
    {
        let s = Shell { buf: [0u8; 64], len: 0 };
        assert(s@ =~= Seq::<u8>::empty());
        s
    }

    /// The bytes of the pending line.
    pub fn pending(&self) -> (r: &[u8])
        requires
            self.wf(),
        ensures
            r@ == self@,
            r@.len() <= LINE_MAX,
    {
        slice_subrange(vstd::array::array_as_slice(&self.buf), 0, self.len)
    }

    /// Takes one byte of input. A carriage return or line feed carries out the
    /// pending line, empties the buffer and returns the response; any other
    /// byte joins the pending line, or is dropped where the buffer is full.
    pub fn feed(&mut self, eep: &mut Storage, byte: u8) -> (r: Option<Vec<u8>>)
        requires
            old(self).wf(),
            well_formed(old(eep)@),
        ensures
            final(self).wf(),
            well_formed(final(eep)@),
            byte == CR || byte == LF ==> {
                &&& r matches Some(out)
                &&& out@ == outcome(old(eep)@, old(self)@).1
                &&& final(eep)@ == outcome(old(eep)@, old(self)@).0
                &&& final(self)@ == Seq::<u8>::empty()
            },
            byte != CR && byte != LF ==> {
                &&& r is None
                &&& final(eep)@ == old(eep)@
                &&& final(self)@ == accumulated(old(self)@, byte)
            },
    {
        if byte == CR || byte == LF {
            let out = execute(eep, self.pending());
            self.len = 0;
            assert(self@ =~= Seq::<u8>::empty());
            Some(out)
        } else {
            if self.len < LINE_MAX {
                self.buf[self.len] = byte;
                self.len += 1;
                assert(self@ =~= accumulated(old(self)@, byte));
            }
            None
        }
    }
}

} // verus!
