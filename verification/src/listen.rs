//! The file descriptors a service manager passes through the environment.
//!
//! A service manager that keeps file descriptors for a service describes
//! them in three variables: how many there are, what they are called, and
//! which process they are meant for. The descriptors themselves follow each
//! other from number 3 on.
use vstd::prelude::*;
use vstd::string::StrSliceExecFns;

verus! {

/// The first file descriptor a service manager passes.
pub const LISTEN_FDS_START: i32 = 3;

/// Captures information on file descriptors passed through the environment.
pub struct ListenFd {
    /// The first file descriptor referred to by the environment.
    pub fd_base: i32,
    /// The count of file descriptors referred to by the environment.
    pub fd_len: i32,
    /// The names of all file descriptors, if available.
    pub names: Vec<String>,
}

/// A `ListenFd` enriched with a relevant file descriptor for passing to a
/// child process.
///
/// The file descriptor was either found by its name among those passed, or
/// it was created and added to them. In both cases `target` is the number
/// it has, or is to have, in the child.
pub struct ListenInit<F> {
    /// The passed `ListenFd`, with the new name added if it was not found.
    pub listen: ListenFd,
    /// Owns the file if it had to be constructed due to not being found.
    pub file: Option<F>,
    /// The file descriptor the file would have in children.
    pub target: i32,
}

/// Why the environment does not describe file descriptors for this process.
#[derive(Clone, Copy, Debug, PartialEq, Eq, Structural)]
pub enum Error {
    BadPid,
    BadFd,
    BadNames,
}

/// What the environment holds for a variable.
pub enum EnvValue<'a> {
    /// The variable is not set.
    Unset,
    /// The variable is set to something that is not text.
    NotUnicode,
    /// The variable is set to this text.
    Text(&'a str),
}

/// Information about a file, with types that do not depend on the platform.
#[derive(Clone, Copy, Debug, Default)]
pub struct Stat {
    pub st_mode: u32,
    pub st_uid: u32,
    pub st_gid: u32,
    pub st_size: i64,
    pub st_blksize: i64,
    pub st_blocks: i64,
    pub st_atime: i64,
    pub st_atime_nsec: i64,
    pub st_mtime: i64,
    pub st_mtime_nsec: i64,
    pub st_ctime: i64,
    pub st_ctime_nsec: i64,
}

/// Whether `c` is a decimal digit.
pub open spec fn is_digit(c: char) -> bool {
    '0' <= c && c <= '9'
}

/// Whether `text` consists of decimal digits only.
pub open spec fn all_digits(text: Seq<char>) -> bool {
    forall|i: int| 0 <= i < text.len() ==> is_digit(#[trigger] text[i])
}

/// The number that the decimal digits of `text` denote.
pub open spec fn digits_value(text: Seq<char>) -> int
    decreases text.len(),
{
    if text.len() == 0 {
        0
    } else {
        digits_value(text.drop_last()) * 10 + (text.last() as int - '0' as int)
    }
}

/// The number that `text` denotes: an optional sign, then at least one
/// decimal digit and nothing else. There is none if the number does not fit
/// 32 bits.
pub open spec fn parse_i32(text: Seq<char>) -> Option<i32> {
    let signed = text.len() > 0 && (text[0] == '-' || text[0] == '+');
    let digits = if signed {
        text.skip(1)
    } else {
        text
    };
    let value = if signed && text[0] == '-' {
        -digits_value(digits)
    } else {
        digits_value(digits)
    };
    if digits.len() > 0 && all_digits(digits) && i32::MIN <= value <= i32::MAX {
        Some(value as i32)
    } else {
        None
    }
}

/// The pieces of `text` between the occurrences of `sep`, in order. A text
/// without `sep` is one piece, also when it is empty.
pub open spec fn split(text: Seq<char>, sep: char) -> Seq<Seq<char>>
    decreases text.len(),
{
    if text.len() == 0 {
        seq![Seq::empty()]
    } else {
        let before = split(text.drop_last(), sep);
        if text.last() == sep {
            before.push(Seq::empty())
        } else {
            before.drop_last().push(before.last().push(text.last()))
        }
    }
}

/// The texts that `names` holds.
pub open spec fn texts(names: Seq<String>) -> Seq<Seq<char>> {
    names.map_values(|name: String| name@)
}

/// The value of a run of digits is not negative and grows with every digit.
pub proof fn lemma_digits_value_grows(text: Seq<char>)
    requires
        all_digits(text),
    ensures
        0 <= digits_value(text),
        text.len() > 0 ==> digits_value(text.drop_last()) <= digits_value(text),
    decreases text.len(),
{
    if text.len() > 0 {
        assert(all_digits(text.drop_last())) by {
            assert forall|i: int| 0 <= i < text.drop_last().len() implies is_digit(
                #[trigger] text.drop_last()[i],
            ) by {
                assert(text.drop_last()[i] == text[i]);
            }
        }
        lemma_digits_value_grows(text.drop_last());
        assert(is_digit(text[text.len() - 1]));
    }
}

/// Read a decimal number of 32 bits.
#[verifier::rlimit(40)]
pub fn parse_decimal(text: &str) -> (value: Option<i32>)
    ensures
        value == parse_i32(text@),
{
    let len: usize = text.unicode_len();
    if len == 0 {
        return None;
    }
    let first: char = text.get_char(0);
    let negative: bool = first == '-';
    let start: usize = if first == '-' || first == '+' {
        1
    } else {
        0
    };
    if start == len {
        return None;
    }
    let ghost digits = text@.skip(start as int);
    proof {
        assert(text@.skip(0) =~= text@);
        assert(digits.take(0) =~= Seq::<char>::empty());
    }
    let limit: i64 = 0x8000_0000;
    let mut acc: i64 = 0;
    let mut i: usize = start;
    while i < len
        invariant
            start <= i <= len,
            len == text@.len(),
            digits == text@.skip(start as int),
            digits == if text@.len() > 0 && (text@[0] == '-' || text@[0] == '+') {
                text@.skip(1)
            } else {
                text@
            },
            all_digits(digits.take(i - start)),
            0 <= acc <= limit + 1,
            limit == 0x8000_0000,
            acc == if digits_value(digits.take(i - start)) <= limit {
                digits_value(digits.take(i - start))
            } else {
                limit + 1
            },
        decreases len - i,
    {
        let c: char = text.get_char(i);
        let ghost seen = digits.take(i - start);
        let ghost next = digits.take(i + 1 - start);
        proof {
            assert(next.drop_last() =~= seen);
            assert(next.last() == c);
        }
        if !(c >= '0' && c <= '9') {
            proof {
                assert(digits[i - start] == c);
                assert(!is_digit(digits[i - start]));
                assert(!all_digits(digits));
            }
            return None;
        }
        proof {
            assert(all_digits(next)) by {
                assert forall|j: int| 0 <= j < next.len() implies is_digit(#[trigger] next[j]) by {
                    if j < seen.len() {
                        assert(next[j] == seen[j]);
                    }
                }
            }
            lemma_digits_value_grows(next);
            lemma_digits_value_grows(seen);
        }
        let digit: i64 = (c as u32 - '0' as u32) as i64;
        acc = acc * 10 + digit;
        if acc > limit {
            acc = limit + 1;
        }
        i += 1;
    }
    proof {
        assert(digits.take(len - start) =~= digits);
    }
    if negative {
        if acc <= limit {
            Some((-acc) as i32)
        } else {
            None
        }
    } else {
        if acc < limit {
            Some(acc as i32)
        } else {
            None
        }
    }
}

/// Split `text` at every colon.
#[verifier::rlimit(40)]
pub fn split_names(text: &str) -> (names: Vec<String>)
    ensures
        texts(names@) == split(text@, ':'),
{
    let len: usize = text.unicode_len();
    let mut names: Vec<String> = Vec::new();
    let mut start: usize = 0;
    let mut i: usize = 0;
    proof {
        assert(text@.take(0) =~= Seq::<char>::empty());
        assert(text@.subrange(0, 0) =~= Seq::<char>::empty());
        assert(texts(names@).push(Seq::<char>::empty()) =~= seq![Seq::<char>::empty()]);
    }
    while i < len
        invariant
            start <= i <= len,
            len == text@.len(),
            split(text@.take(i as int), ':') == texts(names@).push(
                text@.subrange(start as int, i as int),
            ),
        decreases len - i,
    {
        let c: char = text.get_char(i);
        let ghost before = split(text@.take(i as int), ':');
        proof {
            assert(text@.take(i + 1).drop_last() =~= text@.take(i as int));
            assert(text@.take(i + 1).last() == c);
            assert(before.last() == text@.subrange(start as int, i as int));
            assert(before.drop_last() =~= texts(names@));
        }
        if c == ':' {
            let piece: String = text.substring_char(start, i).to_owned();
            let ghost old_names = names@;
            names.push(piece);
            start = i + 1;
            proof {
                assert(texts(names@) =~= texts(old_names).push(piece@));
                assert(text@.subrange(start as int, i + 1) =~= Seq::<char>::empty());
            }
        } else {
            proof {
                assert(text@.subrange(start as int, i + 1) =~= text@.subrange(
                    start as int,
                    i as int,
                ).push(c));
            }
        }
        i += 1;
    }
    let piece: String = text.substring_char(start, len).to_owned();
    let ghost old_names = names@;
    names.push(piece);
    proof {
        assert(text@.take(len as int) =~= text@);
        assert(texts(names@) =~= texts(old_names).push(piece@));
    }
    names
}

impl ListenFd {
    /// The place of the first name that reads `fd_name`, if there is one.
    pub open spec fn find(&self, fd_name: Seq<char>) -> Option<int> {
        if exists|i: int| 0 <= i < self.names@.len() && self.names@[i]@ == fd_name {
            Some(
                choose|i: int|
                    0 <= i < self.names@.len() && self.names@[i]@ == fd_name && forall|j: int|
                        0 <= j < i ==> self.names@[j]@ != fd_name,
            )
        } else {
            None
        }
    }

    /// Whether the file descriptor passed under the name `fd_name`, if
    /// there is one, has a number that fits the type of a file descriptor.
    pub open spec fn can_number(&self, fd_name: Seq<char>) -> bool {
        self.find(fd_name) matches Some(at) ==> at <= i32::MAX && self.fd_base + at <= i32::MAX
    }

    /// The place of the first name that reads `fd_name`, if there is one.
    pub fn position(&self, fd_name: &str) -> (found: Option<usize>)
        ensures
            match found {
                Some(at) => {
                    &&& at < self.names@.len()
                    &&& self.names@[at as int]@ == fd_name@
                    &&& forall|j: int| 0 <= j < at ==> self.names@[j]@ != fd_name@
                    &&& self.find(fd_name@) == Some(at as int)
                },
                None => {
                    &&& forall|j: int| 0 <= j < self.names@.len() ==> self.names@[j]@ != fd_name@
                    &&& self.find(fd_name@).is_none()
                },
            },
    {
        let wanted: String = fd_name.to_owned();
        let mut i: usize = 0;
        while i < self.names.len()
            invariant
                i <= self.names@.len(),
                wanted@ == fd_name@,
                forall|j: int| 0 <= j < i ==> self.names@[j]@ != fd_name@,
            decreases self.names@.len() - i,
        {
            if self.names[i] == wanted {
                proof {
                    let first = choose|k: int|
                        0 <= k < self.names@.len() && self.names@[k]@ == fd_name@ && forall|j: int|
                            0 <= j < k ==> self.names@[j]@ != fd_name@;
                    assert(0 <= i < self.names@.len() && self.names@[i as int]@ == fd_name@
                        && forall|j: int| 0 <= j < i ==> self.names@[j]@ != fd_name@);
                    assert(first == i);
                }
                return Some(i);
            }
            i += 1;
        }
        None
    }

    /// Read from what the environment holds the file descriptors it
    /// describes.
    ///
    /// Without a count there is nothing to describe. A process id, if one
    /// is set, must be that of the caller, `own_pid`. The names are the
    /// pieces of their variable between colons.
    pub fn from_environment(
        count: EnvValue<'_>,
        pid: EnvValue<'_>,
        names: EnvValue<'_>,
        own_pid: i32,
    ) -> (listen: Option<Result<Self, Error>>)
        ensures
            count is Unset <==> listen.is_none(),
            match listen {
                None => true,
                Some(Err(error)) => error == Self::environment_error(count, pid, names, own_pid)->0,
                Some(Ok(listen)) => {
                    &&& Self::environment_error(count, pid, names, own_pid).is_none()
                    &&& listen.fd_base == LISTEN_FDS_START
                    &&& count matches EnvValue::Text(text) && parse_i32(text@) == Some(
                        listen.fd_len,
                    )
                    &&& match names {
                        EnvValue::Text(text) => texts(listen.names@) == split(text@, ':'),
                        _ => listen.names@.len() == 0,
                    }
                },
            },
            listen matches Some(Err(_)) <==> !(count is Unset) && Self::environment_error(
                count,
                pid,
                names,
                own_pid,
            ).is_some(),
    {
        if let EnvValue::Unset = count {
            return None;
        }
        match pid {
            EnvValue::Unset => {},
            EnvValue::NotUnicode => {
                return Some(Err(Error::BadPid));
            },
            EnvValue::Text(text) => {
                match parse_decimal(text) {
                    Some(value) => {
                        if value != own_pid {
                            return Some(Err(Error::BadPid));
                        }
                    },
                    None => {
                        return Some(Err(Error::BadPid));
                    },
                }
            },
        }
        let fd_len: i32 = match count {
            EnvValue::Text(text) => {
                match parse_decimal(text) {
                    Some(value) => value,
                    None => {
                        return Some(Err(Error::BadFd));
                    },
                }
            },
            _ => {
                return Some(Err(Error::BadFd));
            },
        };
        let names: Vec<String> = match names {
            EnvValue::Unset => Vec::new(),
            EnvValue::NotUnicode => {
                return Some(Err(Error::BadNames));
            },
            EnvValue::Text(text) => split_names(text),
        };
        Some(Ok(ListenFd { fd_base: LISTEN_FDS_START, fd_len, names }))
    }

    /// What is wrong with the environment, if anything: the first of a
    /// process id that is not the caller's, a count that is not a number,
    /// and names that are not text.
    pub open spec fn environment_error(
        count: EnvValue<'_>,
        pid: EnvValue<'_>,
        names: EnvValue<'_>,
        own_pid: i32,
    ) -> Option<Error> {
        if match pid {
            EnvValue::Unset => false,
            EnvValue::NotUnicode => true,
            EnvValue::Text(text) => parse_i32(text@) != Some(own_pid),
        } {
            Some(Error::BadPid)
        } else if match count {
            EnvValue::Text(text) => parse_i32(text@).is_none(),
            _ => true,
        } {
            Some(Error::BadFd)
        } else if names is NotUnicode {
            Some(Error::BadNames)
        } else {
            None
        }
    }
}

impl<F> ListenInit<F> {
    /// Derive a new setup that holds a file descriptor named `fd_name`:
    /// the one that was passed under this name, or else one made by `with`.
    ///
    /// Without anything passed, the new file is the first and only
    /// descriptor. Otherwise a file that had to be made is added behind
    /// those that were passed. If `with` fails, so does this.
    pub fn named_or_try_create<R, W: FnOnce() -> Result<F, R>>(
        this: Option<ListenFd>,
        fd_name: &str,
        with: W,
    ) -> (init: Result<Self, R>)
        requires
            Self::creates(this, fd_name@) ==> call_requires(with, ()),
            match this {
                Some(listen) => if Self::creates(this, fd_name@) {
                    Self::can_add(listen)
                } else {
                    listen.can_number(fd_name@)
                },
                None => true,
            },
        ensures
            !Self::creates(this, fd_name@) ==> match init {
                Ok(init) => {
                    &&& init.file.is_none()
                    &&& init.listen == this->0
                    &&& init.target == this->0.fd_base + this->0.find(fd_name@)->0
                },
                Err(_) => false,
            },
            Self::creates(this, fd_name@) ==> exists|made: Result<F, R>|
                {
                    &&& call_ensures(with, (), made)
                    &&& match made {
                        Ok(file) => match init {
                            Ok(init) => {
                                &&& init.file == Some(file)
                                &&& match this {
                                    None => {
                                        &&& init.target == LISTEN_FDS_START
                                        &&& init.listen.fd_base == LISTEN_FDS_START
                                        &&& init.listen.fd_len == 1
                                        &&& texts(init.listen.names@) == seq![fd_name@]
                                    },
                                    Some(listen) => {
                                        &&& init.target == listen.fd_base + listen.fd_len
                                        &&& init.listen.fd_base == listen.fd_base
                                        &&& init.listen.fd_len == listen.fd_len + 1
                                        &&& texts(init.listen.names@) == texts(listen.names@).push(
                                            fd_name@,
                                        )
                                    },
                                }
                            },
                            Err(_) => false,
                        },
                        Err(error) => init == Err::<Self, R>(error),
                    }
                },
    {
        match this {
            None => {
                let file: F = match with() {
                    Ok(file) => file,
                    Err(error) => {
                        return Err(error);
                    },
                };
                let mut names: Vec<String> = Vec::new();
                names.push(fd_name.to_owned());
                proof {
                    assert(texts(names@) =~= seq![fd_name@]);
                }
                let listen = ListenFd { fd_base: LISTEN_FDS_START, fd_len: 1, names };
                Ok(ListenInit { listen, file: Some(file), target: LISTEN_FDS_START })
            },
            Some(listen) => {
                let mut listen = listen;
                let position: Option<usize> = listen.position(fd_name);
                match position {
                    Some(position) => {
                        let target: i32 = listen.fd_base + position as i32;
                        Ok(ListenInit { listen, file: None, target })
                    },
                    None => {
                        let file: F = match with() {
                            Ok(file) => file,
                            Err(error) => {
                                return Err(error);
                            },
                        };
                        let ghost before = listen.names@;
                        listen.names.push(fd_name.to_owned());
                        proof {
                            assert(texts(listen.names@) =~= texts(before).push(fd_name@));
                        }
                        let target: i32 = listen.fd_base + listen.fd_len;
                        listen.fd_len += 1;
                        Ok(ListenInit { listen, file: Some(file), target })
                    },
                }
            },
        }
    }

    /// Whether one more file descriptor can be counted, and the number it
    /// gets behind those that `listen` describes fits the type of a file
    /// descriptor.
    pub open spec fn can_add(listen: ListenFd) -> bool {
        &&& listen.fd_len < i32::MAX
        &&& i32::MIN <= listen.fd_base + listen.fd_len <= i32::MAX
    }

    /// Whether a new file is needed: nothing was passed, or nothing under
    /// the name `fd_name`.
    pub open spec fn creates(this: Option<ListenFd>, fd_name: Seq<char>) -> bool {
        match this {
            None => true,
            Some(listen) => listen.find(fd_name).is_none(),
        }
    }
}

/// The character of the decimal digit `d`.
pub open spec fn digit_char(d: int) -> char {
    ('0' as int + d) as char
}

/// The decimal digits of `n`, without leading zeros.
pub open spec fn digits_of(n: nat) -> Seq<char>
    decreases n,
{
    if n < 10 {
        seq![digit_char(n as int)]
    } else {
        digits_of(n / 10).push(digit_char(n as int % 10))
    }
}

/// The decimal text of `value`: its digits, behind a minus sign if it is
/// negative.
pub open spec fn decimal(value: int) -> Seq<char> {
    if value < 0 {
        seq!['-'] + digits_of((-value) as nat)
    } else {
        digits_of(value as nat)
    }
}

/// The texts of `names` with `sep` between them.
pub open spec fn join(names: Seq<Seq<char>>, sep: char) -> Seq<char>
    decreases names.len(),
{
    if names.len() == 0 {
        Seq::empty()
    } else if names.len() == 1 {
        names[0]
    } else {
        join(names.drop_last(), sep).push(sep) + names.last()
    }
}

/// The digits of a number denote that number.
pub proof fn lemma_digits_of_value(n: nat)
    ensures
        digits_of(n).len() >= 1,
        all_digits(digits_of(n)),
        digits_value(digits_of(n)) == n,
    decreases n,
{
    if n < 10 {
        let text = digits_of(n);
        assert(text.drop_last() =~= Seq::<char>::empty());
        assert(digits_value(text.drop_last()) == 0);
    } else {
        lemma_digits_of_value(n / 10);
        let head = digits_of(n / 10);
        let text = digits_of(n);
        assert(text.drop_last() =~= head);
        assert forall|i: int| 0 <= i < text.len() implies is_digit(#[trigger] text[i]) by {
            if i < head.len() {
                assert(text[i] == head[i]);
            }
        }
    }
}

/// Reading the decimal text of a number gives the number back.
pub proof fn lemma_parse_decimal_round_trip(value: i32)
    ensures
        parse_i32(decimal(value as int)) == Some(value),
{
    if value < 0 {
        let digits = digits_of((-value) as nat);
        lemma_digits_of_value((-value) as nat);
        let text = decimal(value as int);
        assert(text[0] == '-');
        assert(text.skip(1) =~= digits);
    } else {
        let digits = digits_of(value as nat);
        lemma_digits_of_value(value as nat);
        assert(is_digit(digits[0]));
    }
}

/// Append `more` to `text`.
///
/// Wraps `String::push_str` of the standard library, which appends the
/// given string slice to the end of the string.
#[verifier::external_body]
fn push_str(text: &mut String, more: &str)
    ensures
        final(text)@ == old(text)@ + more@,
{
    text.push_str(more);
}

/// Append `c` to `text`.
///
/// Wraps `String::push` of the standard library, which appends the given
/// character to the end of the string.
#[verifier::external_body]
fn push_char(text: &mut String, c: char)
    ensures
        final(text)@ == old(text)@.push(c),
{
    text.push(c);
}

/// The decimal text of `value`.
#[verifier::rlimit(40)]
pub fn render_decimal(value: i32) -> (text: String)
    ensures
        text@ == decimal(value as int),
{
    let mut text = String::new();
    let mut rest: i64 = value as i64;
    if rest < 0 {
        push_char(&mut text, '-');
        rest = -rest;
    }
    let magnitude: i64 = rest;
    let mut reversed: Vec<char> = Vec::new();
    proof {
        assert(text@ + digits_of(magnitude as nat) =~= decimal(value as int));
    }
    let ghost sign = text@;
    // The digits come out lowest first.
    loop
        invariant_except_break
            digits_of(magnitude as nat) == digits_of(rest as nat) + reversed@.reverse(),
        invariant
            0 <= rest <= magnitude,
            magnitude <= 0x8000_0000,
            text@ == sign,
            sign + digits_of(magnitude as nat) == decimal(value as int),
        ensures
            text@ == sign,
            sign + digits_of(magnitude as nat) == decimal(value as int),
            digits_of(magnitude as nat) == reversed@.reverse(),
        decreases rest,
    {
        let digit: u8 = (rest % 10) as u8;
        let c: char = (48u8 + digit) as char;
        assert(c == digit_char(digit as int));
        let ghost before = reversed@;
        reversed.push(c);
        proof {
            assert(reversed@.reverse() =~= seq![c] + before.reverse());
        }
        if rest < 10 {
            proof {
                assert(digits_of(rest as nat) =~= seq![c]);
                assert(digits_of(magnitude as nat) =~= reversed@.reverse());
            }
            break ;
        }
        proof {
            assert(digits_of(rest as nat) + before.reverse() =~= digits_of((rest / 10) as nat)
                + reversed@.reverse());
        }
        rest = rest / 10;
    }
    let mut i: usize = reversed.len();
    while i > 0
        invariant
            i <= reversed@.len(),
            text@ == sign + reversed@.reverse().take(reversed@.len() - i),
        decreases i,
    {
        i -= 1;
        let ghost before = text@;
        push_char(&mut text, reversed[i]);
        proof {
            let whole = reversed@.reverse();
            let done = reversed@.len() - i;
            assert(whole.take(done) =~= whole.take(done - 1).push(reversed@[i as int]));
            assert(text@ =~= sign + whole.take(done));
        }
    }
    proof {
        assert(reversed@.reverse().take(reversed@.len() as int) =~= reversed@.reverse());
    }
    text
}

impl ListenFd {
    /// The number of the first file descriptor passed under the name
    /// `fd_name`, if there is one.
    pub fn fd_named(&self, fd_name: &str) -> (fd: Option<i32>)
        requires
            self.can_number(fd_name@),
        ensures
            match fd {
                Some(fd) => self.find(fd_name@) matches Some(at) && fd == self.fd_base + at,
                None => self.find(fd_name@).is_none(),
            },
    {
        match self.position(fd_name) {
            Some(at) => Some(self.fd_base + at as i32),
            None => None,
        }
    }

    /// The text that tells a child how many file descriptors it is passed.
    pub fn count_text(&self) -> (text: String)
        ensures
            text@ == decimal(self.fd_len as int),
    {
        render_decimal(self.fd_len)
    }

    /// The text that tells a child the names of the file descriptors it is
    /// passed: the names with colons between them.
    pub fn names_text(&self) -> (text: String)
        ensures
            text@ == join(texts(self.names@), ':'),
    {
        let mut text = String::new();
        let mut i: usize = 0;
        proof {
            assert(texts(self.names@).take(0) =~= Seq::<Seq<char>>::empty());
        }
        while i < self.names.len()
            invariant
                i <= self.names@.len(),
                text@ == join(texts(self.names@).take(i as int), ':'),
            decreases self.names@.len() - i,
        {
            let ghost before = texts(self.names@).take(i as int);
            let ghost after = texts(self.names@).take(i + 1);
            proof {
                assert(after.drop_last() =~= before);
                assert(after.last() == self.names@[i as int]@);
            }
            if i > 0 {
                push_char(&mut text, ':');
            }
            push_str(&mut text, self.names[i].as_str());
            proof {
                if i == 0 {
                    assert(text@ =~= after[0]);
                }
            }
            i += 1;
        }
        proof {
            assert(texts(self.names@).take(self.names@.len() as int) =~= texts(self.names@));
        }
        text
    }
}

/// What a service is to tell its manager so that the manager keeps a file
/// descriptor under the name `fd_name`.
pub open spec fn store_request(fd_name: Seq<char>) -> Seq<char> {
    "FDSTORE=1\nFDNAME="@ + fd_name
}

/// The message that asks the service manager to keep a file descriptor
/// under the name `fd_name`.
pub fn notify_state(fd_name: &str) -> (state: String)
    ensures
        state@ == store_request(fd_name@),
{
    let mut state = String::new();
    push_str(&mut state, "FDSTORE=1\nFDNAME=");
    push_str(&mut state, fd_name);
    proof {
        assert(state@ =~= store_request(fd_name@));
    }
    state
}

/// Where the socket of the service manager is to be found.
#[derive(Clone, Copy, Debug, PartialEq, Eq, Structural)]
pub enum NotifyAddress {
    /// A socket in the file system, at the path that starts at this byte
    /// of the address.
    Path(usize),
    /// A socket in the abstract namespace, whose name starts at this byte
    /// of the address.
    Abstract(usize),
}

/// Read the address of the notify socket.
///
/// An address that starts with a slash is a path, and all of it is the
/// name. An address that starts with `@` is in the abstract namespace, and
/// the name is what follows. Anything else is not supported.
pub fn notify_address(address: &[u8]) -> (kind: Option<NotifyAddress>)
    ensures
        kind == if address@.len() > 0 && address@[0] == 0x2f {
            Some(NotifyAddress::Path(0))
        } else if address@.len() > 0 && address@[0] == 0x40 {
            Some(NotifyAddress::Abstract(1))
        } else {
            None
        },
{
    if address.len() == 0 {
        None
    } else if address[0] == 0x2f {
        Some(NotifyAddress::Path(0))
    } else if address[0] == 0x40 {
        Some(NotifyAddress::Abstract(1))
    } else {
        None
    }
}

impl Stat {
    /// The size of the file as a length in the address space, if it is
    /// one.
    pub fn area_len(&self) -> (len: Option<usize>)
        ensures
            len == if 0 <= self.st_size <= usize::MAX {
                Some(self.st_size as usize)
            } else {
                None
            },
    {
        if self.st_size < 0 {
            None
        } else if self.st_size as u64 > usize::MAX as u64 {
            None
        } else {
            Some(self.st_size as usize)
        }
    }
}

} // verus!
