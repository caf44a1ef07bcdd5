//! A string of a fixed capacity that lives where its owner lives.

use vstd::prelude::*;
use vstd::slice::slice_subrange;

verus! {

/// `String::push` of std: appends the character `c` to `text`.
#[verifier::external_body]
fn push_char(text: &mut String, c: char)
    ensures
        final(text)@ == old(text)@.push(c),
{
    text.push(c);
}

/// Why a `StackString` refused characters.
#[derive(Debug, Clone, Copy, PartialEq, Eq, Structural)]
pub enum StackStringError {
    /// The string is full.
    ExceedCapacity,
}

/// Up to `CAPACITY` characters.
#[derive(Debug)]
pub struct StackString<const CAPACITY: usize> {
    size: usize,
    data: [char; CAPACITY],
}

impl<const CAPACITY: usize> View for StackString<CAPACITY> {
    type V = Seq<char>;

    closed spec fn view(&self) -> Seq<char> {
        self.data@.subrange(0, self.size as int)
    }
}

impl<const CAPACITY: usize> Clone for StackString<CAPACITY> {
    fn clone(&self) -> (copy: Self)
        ensures
            copy@ == self@,
    {
        proof {
            use_type_invariant(self);
        }
        Self { size: self.size, data: self.data }
    }
}

impl<const CAPACITY: usize> Default for StackString<CAPACITY> {
    fn default() -> (string: Self)
        ensures
            string@ == Seq::<char>::empty(),
    {
        Self { size: 0, data: ['\0'; CAPACITY] }
    }
}

impl<const CAPACITY: usize> StackString<CAPACITY> {
    #[verifier::type_invariant]
    spec fn within_capacity(self) -> bool {
        self.size <= CAPACITY
    }

    /// Removes every character.
    pub fn clear(&mut self)
        ensures
            final(self)@ == Seq::<char>::empty(),
    {
        self.size = 0;
    }

    /// Removes the last character and returns it, or returns `None` if
    /// there is none.
    pub fn pop(&mut self) -> (last: Option<char>)
        ensures
            old(self)@.len() > 0 ==> last == Some(old(self)@.last()) && final(self)@ == old(
                self,
            )@.drop_last(),
            old(self)@.len() == 0 ==> last is None && final(self)@ == old(self)@,
    {
        proof {
            use_type_invariant(&*self);
        }
        if self.size > 0 {
            self.size -= 1;
            let result = self.data[self.size];
            Some(result)
        } else {
            None
        }
    }

    /// Adds `c` at the end, or refuses it if the string is full.
    pub fn push(&mut self, c: char) -> (pushed: Result<(), StackStringError>)
        ensures
            old(self)@.len() < CAPACITY ==> pushed is Ok && final(self)@ == old(self)@.push(c),
            old(self)@.len() >= CAPACITY ==> pushed == Err::<(), StackStringError>(
                StackStringError::ExceedCapacity,
            ) && final(self)@ == old(self)@,
    {
        proof {
            use_type_invariant(&*self);
        }
        if self.size >= CAPACITY {
            return Err(StackStringError::ExceedCapacity);
        }
        self.data[self.size] = c;
        self.size += 1;
        assert(self@ =~= old(self)@.push(c));
        Ok(())
    }

    /// Adds the characters of `s` at the end, as many as there is room
    /// for. Returns how many there are, or refuses if not all of them
    /// found room.
    pub fn push_str(&mut self, s: &str) -> (pushed: Result<usize, StackStringError>)
        ensures
            old(self)@.len() + s@.len() <= CAPACITY ==> pushed == Ok::<usize, StackStringError>(
                s@.len() as usize,
            ) && final(self)@ == old(self)@ + s@,
            old(self)@.len() + s@.len() > CAPACITY ==> pushed == Err::<usize, StackStringError>(
                StackStringError::ExceedCapacity,
            ) && final(self)@ == old(self)@ + s@.subrange(0, CAPACITY - old(self)@.len()),
    {
        let mut chars_written: usize = 0;
        proof {
            use_type_invariant(&*self);
        }
        assert(self@ =~= old(self)@ + s@.subrange(0, 0));

        for c in it: s.chars()
            invariant
                chars_written == it.index(),
                it.seq() == s@,
                self.size <= CAPACITY,
                self.size == old(self).size + chars_written,
                chars_written <= s@.len(),
                self@ == old(self)@ + s@.subrange(0, chars_written as int),
        {
            assert(chars_written < s@.len() && c == s@[chars_written as int]);
            if self.size >= CAPACITY {
                return Err(StackStringError::ExceedCapacity);
            }
            let ghost before = self@;
            self.data[self.size] = c;
            self.size += 1;

            chars_written += 1;
            assert(self@ =~= before.push(c));
            assert(s@.subrange(0, chars_written as int) =~= s@.subrange(
                0,
                chars_written - 1,
            ).push(c));
        }
        assert(s@.subrange(0, chars_written as int) =~= s@);
        Ok(chars_written)
    }

    /// The number of characters.
    pub fn len(&self) -> (len: usize)
        ensures
            len == self@.len(),
            len <= CAPACITY,
    {
        proof {
            use_type_invariant(self);
        }
        self.size
    }

    /// Whether there is no character.
    pub fn is_empty(&self) -> (empty: bool)
        ensures
            empty == (self@.len() == 0),
    {
        proof {
            use_type_invariant(self);
        }
        self.size == 0
    }

    /// The characters as a `String`.
    pub fn to_string(&self) -> (text: String)
        ensures
            text@ == self@,
    {
        proof {
            use_type_invariant(self);
        }
        let mut text = String::new();
        let mut i: usize = 0;
        while i < self.size
            invariant
                i <= self.size <= CAPACITY,
                text@ == self@.subrange(0, i as int),
            decreases self.size - i,
        {
            push_char(&mut text, self.data[i]);
            i += 1;
            assert(text@ =~= self@.subrange(0, i as int));
        }
        assert(self@.subrange(0, i as int) =~= self@);
        text
    }

    /// The characters.
    pub fn get_data(&self) -> (data: &[char])
        ensures
            data@ == self@,
            data@.len() <= CAPACITY,
    {
        proof {
            use_type_invariant(self);
        }
        slice_subrange(self.data.as_slice(), 0, self.size)
    }
}

impl<const CAPACITY: usize> StackString<CAPACITY> {
    /// The character in place `index` of the storage. Below `len()` it is
    /// the character of the string at that place; from there on it is
    /// whatever was stored there last.
    pub closed spec fn slot(&self, index: int) -> char {
        self.data@[index]
    }
}

impl<const CAPACITY: usize> StackString<CAPACITY> {
    /// The character in place `index` of the storage.
    pub fn index(&self, index: usize) -> (c: &char)
        requires
            index < CAPACITY,
        ensures
            *c == self.slot(index as int),
            index < self@.len() ==> *c == self@[index as int],
    {
        proof {
            use_type_invariant(self);
        }
        &self.data[index]
    }

    /// Stores `c` in place `index` of the storage, and changes nothing
    /// else.
    pub fn set(&mut self, index: usize, c: char)
        requires
            index < CAPACITY,
        ensures
            final(self).slot(index as int) == c,
            forall|i: int|
                0 <= i < CAPACITY && i != index ==> final(self).slot(i) == old(self).slot(i),
            final(self)@.len() == old(self)@.len(),
            final(self)@ == if index < old(self)@.len() {
                old(self)@.update(index as int, c)
            } else {
                old(self)@
            },
    {
        proof {
            use_type_invariant(&*self);
        }
        self.data[index] = c;
        assert(self@ =~= if index < old(self)@.len() {
            old(self)@.update(index as int, c)
        } else {
            old(self)@
        });
    }
}

} // verus!
