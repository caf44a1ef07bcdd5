//! The line editor of the console: it collects the characters that are
//! typed and says what the console has to show for each key.

use crate::stack_string::StackString;
use vstd::prelude::*;
use vstd::slice::slice_subrange;
use vstd::utf8::{
    encode_scalar, encode_utf8, last_continuation_byte, leading_byte_width_1,
    leading_byte_width_2, leading_byte_width_3, leading_byte_width_4,
    second_last_continuation_byte, third_last_continuation_byte,
};

verus! {

/// The most characters that a command can have.
pub const COMMAND_MAX_LENGTH: usize = 256;

/// The most bytes that the UTF-8 form of a command can have.
pub const COMMAND_BYTES: usize = COMMAND_MAX_LENGTH * 4;

/// A key as the keyboard decoder reports it.
#[derive(Debug, Clone, Copy, PartialEq, Eq, Structural)]
pub enum Key {
    /// A key that stands for a character.
    Unicode(char),
    /// A key that stands for none.
    RawKey,
}

/// What the console has to do after a key.
#[derive(Debug, Clone, Copy)]
pub enum ShellAction {
    /// Nothing.
    Ignore,
    /// Erase the last character shown.
    Backspace,
    /// Show `character`; before it, if `limit` is set, the notice that the
    /// line is full.
    Echo { character: char, limit: bool },
    /// Begin a new line and run the command whose UTF-8 form is the first
    /// `length` bytes of `bytes`.
    Execute { length: usize, bytes: [u8; COMMAND_BYTES] },
}

/// The characters of `chars` but for the NUL characters.
pub open spec fn without_nul(chars: Seq<char>) -> Seq<char> {
    chars.filter(|c: char| c != '\0')
}

/// The UTF-8 form of a command: that of its characters but for the NUL
/// characters.
pub open spec fn command_utf8(chars: Seq<char>) -> Seq<u8> {
    encode_utf8(without_nul(chars))
}

/// Whether each character of `chars` finds room in a buffer of
/// `COMMAND_BYTES` bytes when it is encoded behind those before it.
pub open spec fn fits_buffer(chars: Seq<char>) -> bool {
    forall|k: int|
        0 <= k < chars.len() ==> command_utf8(#[trigger] chars.subrange(0, k)).len()
            + encode_scalar(chars[k] as u32).len() <= COMMAND_BYTES
}

/// The UTF-8 form of a character has one to four bytes. None of them is
/// zero, unless the character is NUL, whose form is one zero byte.
pub proof fn lemma_encode_scalar(c: char)
    ensures
        1 <= encode_scalar(c as u32).len() <= 4,
        c == '\0' ==> encode_scalar(c as u32) == seq![0u8],
        c != '\0' ==> forall|j: int|
            0 <= j < encode_scalar(c as u32).len() ==> #[trigger] encode_scalar(c as u32)[j] != 0,
{
    let v = c as u32;
    assert(v == 0 ==> leading_byte_width_1(v) == 0) by (bit_vector);
    assert(0 < v <= 0x7F ==> leading_byte_width_1(v) != 0) by (bit_vector);
    assert(leading_byte_width_2(v) != 0) by (bit_vector);
    assert(leading_byte_width_3(v) != 0) by (bit_vector);
    assert(leading_byte_width_4(v) != 0) by (bit_vector);
    assert(last_continuation_byte(v) != 0) by (bit_vector);
    assert(second_last_continuation_byte(v) != 0) by (bit_vector);
    assert(third_last_continuation_byte(v) != 0) by (bit_vector);
    if c == '\0' {
        assert(v == 0);
    } else {
        assert(v != 0);
    }
}

/// The UTF-8 form of a sequence with one more character at its end is the
/// form of the sequence followed by the form of the character.
pub proof fn lemma_encode_utf8_push(chars: Seq<char>, c: char)
    ensures
        encode_utf8(chars.push(c)) == encode_utf8(chars) + encode_scalar(c as u32),
    decreases chars.len(),
{
    if chars.len() == 0 {
        assert(chars.push(c).drop_first() =~= Seq::<char>::empty());
        assert(encode_utf8(Seq::<char>::empty()) =~= Seq::<u8>::empty());
        assert(encode_utf8(chars.push(c)) =~= encode_scalar(c as u32) + Seq::<u8>::empty());
    } else {
        lemma_encode_utf8_push(chars.drop_first(), c);
        assert(chars.push(c).drop_first() =~= chars.drop_first().push(c));
        assert(encode_utf8(chars.push(c)) =~= encode_utf8(chars) + encode_scalar(c as u32));
    }
}

/// The UTF-8 form of a command with one more character at its end.
pub proof fn lemma_command_utf8_push(chars: Seq<char>, c: char)
    ensures
        command_utf8(chars.push(c)) == if c == '\0' {
            command_utf8(chars)
        } else {
            command_utf8(chars) + encode_scalar(c as u32)
        },
{
    reveal(Seq::filter);
    assert(chars.push(c).drop_last() =~= chars);
    if c != '\0' {
        lemma_encode_utf8_push(without_nul(chars), c);
    }
}

/// A command of at most `COMMAND_MAX_LENGTH` characters has a UTF-8 form of
/// at most four bytes for each, so each character finds room in the buffer.
pub proof fn lemma_short_command_fits(chars: Seq<char>)
    requires
        chars.len() <= COMMAND_MAX_LENGTH,
    ensures
        command_utf8(chars).len() <= 4 * chars.len(),
        fits_buffer(chars),
    decreases chars.len(),
{
    if chars.len() == 0 {
        reveal(Seq::filter);
        assert(without_nul(chars) =~= Seq::<char>::empty());
        assert(encode_utf8(Seq::<char>::empty()).len() == 0);
    } else {
        let front = chars.drop_last();
        lemma_short_command_fits(front);
        lemma_command_utf8_push(front, chars.last());
        lemma_encode_scalar(chars.last());
        assert(front.push(chars.last()) =~= chars);
        assert forall|k: int| 0 <= k < chars.len() implies command_utf8(
            #[trigger] chars.subrange(0, k),
        ).len() + encode_scalar(chars[k] as u32).len() <= COMMAND_BYTES by {
            lemma_encode_scalar(chars[k]);
            if k < front.len() {
                assert(chars.subrange(0, k) =~= front.subrange(0, k));
                assert(chars[k] == front[k]);
            } else {
                assert(chars.subrange(0, k) =~= front);
            }
        }
    }
}

/// `char::encode_utf8` of std: writes the UTF-8 form of `c` into `bytes`
/// from place `at` on and leaves the other bytes as they are. The form has
/// to find room behind `at`.
#[verifier::external_body]
fn encode_utf8_at(c: char, bytes: &mut [u8; COMMAND_BYTES], at: usize)
    requires
        at + encode_scalar(c as u32).len() <= COMMAND_BYTES,
    ensures
        final(bytes)@ == old(bytes)@.subrange(0, at as int) + encode_scalar(c as u32) + old(
            bytes,
        )@.subrange(at + encode_scalar(c as u32).len(), COMMAND_BYTES as int),
{
    let _ = c.encode_utf8(&mut bytes[at..]);
}

/// The number of bytes of `slice` before its first zero byte; its length
/// if it holds none.
pub fn get_slice_first_zero(slice: &[u8]) -> (result: usize)
    ensures
        result <= slice@.len(),
        forall|j: int| 0 <= j < result ==> slice@[j] != 0,
        result < slice@.len() ==> slice@[result as int] == 0,
{
    let mut result: usize = 0;
    while result < slice.len() && slice[result] != 0
        invariant
            result <= slice@.len(),
            forall|j: int| 0 <= j < result ==> slice@[j] != 0,
        decreases slice@.len() - result,
    {
        result += 1;
    }
    result
}

/// The UTF-8 form of a command, written to the start of a buffer of zero
/// bytes, and its length. NUL characters leave no trace in it.
pub fn char_slice_to_utf8_slice(char_slice: &[char]) -> (encoded: (usize, [u8; COMMAND_BYTES]))
    requires
        fits_buffer(char_slice@),
    ensures
        encoded.0 == command_utf8(char_slice@).len(),
        encoded.0 <= COMMAND_BYTES,
        encoded.1@.subrange(0, encoded.0 as int) == command_utf8(char_slice@),
        forall|j: int| encoded.0 <= j < COMMAND_BYTES ==> encoded.1@[j] == 0,
{
    let mut utf8_bytes = [0u8;COMMAND_BYTES];

    let mut i: usize = 0;
    let mut k: usize = 0;
    proof {
        reveal(Seq::filter);
        assert(char_slice@.subrange(0, 0) =~= Seq::<char>::empty());
        assert(without_nul(Seq::<char>::empty()) =~= Seq::<char>::empty());
        assert(encode_utf8(Seq::<char>::empty()) =~= Seq::<u8>::empty());
        assert(utf8_bytes@.subrange(0, 0) =~= Seq::<u8>::empty());
    }
    while k < char_slice.len()
        invariant
            k <= char_slice@.len(),
            i <= COMMAND_BYTES,
            fits_buffer(char_slice@),
            i == command_utf8(char_slice@.subrange(0, k as int)).len(),
            utf8_bytes@.subrange(0, i as int) == command_utf8(char_slice@.subrange(0, k as int)),
            forall|j: int| i <= j < COMMAND_BYTES ==> utf8_bytes@[j] == 0,
        decreases char_slice@.len() - k,
    {
        let c = char_slice[k];
        let ghost before = utf8_bytes@;
        let ghost done = char_slice@.subrange(0, k as int);
        proof {
            lemma_encode_scalar(c);
            lemma_command_utf8_push(done, c);
            assert(done.push(c) =~= char_slice@.subrange(0, k + 1));
        }
        encode_utf8_at(c, &mut utf8_bytes, i);
        let written = get_slice_first_zero(slice_subrange(utf8_bytes.as_slice(), i, COMMAND_BYTES));
        proof {
            let form = encode_scalar(c as u32);
            let rest = utf8_bytes@.subrange(i as int, COMMAND_BYTES as int);
            assert forall|j: int| 0 <= j < form.len() implies rest[j] == form[j] by {
                assert(utf8_bytes@[i + j] == form[j]);
            }
            assert forall|j: int| form.len() <= j < rest.len() implies rest[j] == 0 by {
                assert(utf8_bytes@[i + j] == before[i + j]);
            }
            if c == '\0' {
                assert(rest[0] == 0);
                assert(written == 0);
                assert(utf8_bytes@ =~= before);
            } else {
                if written < form.len() {
                    assert(rest[written as int] == form[written as int]);
                }
                if written > form.len() {
                    assert(rest[form.len() as int] == 0);
                }
                assert(written == form.len());
                assert(utf8_bytes@.subrange(0, i + written) =~= before.subrange(0, i as int)
                    + form);
            }
        }
        i += written;
        k += 1;
    }
    proof {
        assert(char_slice@.subrange(0, k as int) =~= char_slice@);
    }
    (i, utf8_bytes)
}

/// The line editor: the characters typed since the last command.
pub struct Coquille {
    current_characters: StackString<COMMAND_MAX_LENGTH>,
}

impl View for Coquille {
    type V = Seq<char>;

    closed spec fn view(&self) -> Seq<char> {
        self.current_characters@
    }
}

impl Default for Coquille {
    fn default() -> (shell: Self)
        ensures
            shell@ == Seq::<char>::empty(),
    {
        Coquille { current_characters: StackString::default() }
    }
}

impl Coquille {
    /// Takes a key. A backspace drops the last character of the line; a
    /// line feed hands the line out as a command and empties it; any other
    /// character is added to the line, unless the line is full. A key that
    /// stands for no character changes nothing.
    pub fn push_key(&mut self, key: Key) -> (action: ShellAction)
        ensures
            match key {
                Key::Unicode(character) => if character == '\u{8}' {
                    &&& action is Backspace
                    &&& final(self)@ == if old(self)@.len() > 0 {
                        old(self)@.drop_last()
                    } else {
                        old(self)@
                    }
                } else if character == '\n' {
                    &&& action matches ShellAction::Execute { length, bytes }
                    &&& length == command_utf8(old(self)@).len()
                    &&& bytes@.subrange(0, length as int) == command_utf8(old(self)@)
                    &&& forall|j: int| length <= j < COMMAND_BYTES ==> bytes@[j] == 0
                    &&& final(self)@ == Seq::<char>::empty()
                } else if old(self)@.len() < COMMAND_MAX_LENGTH {
                    &&& action == (ShellAction::Echo { character, limit: false })
                    &&& final(self)@ == old(self)@.push(character)
                } else {
                    &&& action == (ShellAction::Echo { character, limit: true })
                    &&& final(self)@ == old(self)@
                },
                Key::RawKey => action is Ignore && final(self)@ == old(self)@,
            },
    {
        match key {
            Key::Unicode(character) => {
                if character == '\u{8}' {
                    let _ = self.current_characters.pop();
                    ShellAction::Backspace
                } else if character == '\n' {
                    let command = self.current_characters.get_data();
                    proof {
                        lemma_short_command_fits(command@);
                    }
                    let (length, bytes) = char_slice_to_utf8_slice(command);
                    self.current_characters.clear();
                    ShellAction::Execute { length, bytes }
                } else {
                    let limit = self.current_characters.push(character).is_err();
                    ShellAction::Echo { character, limit }
                }
            },
            Key::RawKey => ShellAction::Ignore,
        }
    }
}

} // verus!
