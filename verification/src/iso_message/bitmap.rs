use super::ReadError;
use crate::bitmaps::{bit_is_set, read_word, word_at, STARTING_BIT};
use vstd::prelude::*;
use vstd::std_specs::iter::IteratorSpec;

verus! {

/// The bitmaps of a message: the primary word, and the secondary and
/// tertiary ones when present.
#[derive(Debug)]
pub struct Bitmap {
    pub primary_bitmap: u64,
    pub secondary_bitmap: Option<u64>,
    pub tertiary_bitmap: Option<u64>,
}

impl Default for Bitmap {
    /// An empty primary bitmap and no other.
    fn default() -> (r: Self)
        ensures
            r.primary_bitmap == 0,
            r.secondary_bitmap is None,
            r.tertiary_bitmap is None,
    {
        Bitmap { primary_bitmap: 0, secondary_bitmap: None, tertiary_bitmap: None }
    }
}

/// The data elements that the first `n` bits of `words` announce: bit `p`
/// (0 is the most significant bit) of word `i` announces `1 + p + 64 * i`.
pub open spec fn announced_upto(words: Seq<u64>, n: nat) -> Seq<usize>
    decreases n,
{
    if n == 0 {
        Seq::empty()
    } else {
        let g = n - 1;
        announced_upto(words, (n - 1) as nat) + if bit_is_set(words[g / 64], g % 64) {
            seq![n as usize]
        } else {
            Seq::empty()
        }
    }
}

/// What `Bitmap::try_from` reads from `value`: the primary word, the
/// secondary one if the primary announces it, the tertiary one if the
/// secondary announces it; or which of them (1, 2 or 3) the buffer is too
/// short for.
pub open spec fn spec_bitmap_from(value: Seq<u8>) -> Result<(u64, Option<u64>, Option<u64>), u8> {
    if value.len() < 8 {
        Err(1)
    } else {
        let primary = word_at(value, 0);
        if !bit_is_set(primary, 0) {
            Ok((primary, None, None))
        } else if value.len() < 16 {
            Err(2)
        } else {
            let secondary = word_at(value, 8);
            if !bit_is_set(secondary, 0) {
                Ok((primary, Some(secondary), None))
            } else if value.len() < 24 {
                Err(3)
            } else {
                Ok((primary, Some(secondary), Some(word_at(value, 16))))
            }
        }
    }
}

impl Bitmap {
    /// The words in order: the primary, then the secondary if present, then
    /// the tertiary if the secondary is present too.
    pub open spec fn words(&self) -> Seq<u64> {
        match self.secondary_bitmap {
            None => seq![self.primary_bitmap],
            Some(s) => match self.tertiary_bitmap {
                None => seq![self.primary_bitmap, s],
                Some(t) => seq![self.primary_bitmap, s, t],
            },
        }
    }

    /// Reads the bitmaps at the start of `value`.
    pub fn try_from(value: &[u8]) -> (r: Result<Self, ReadError>)
        ensures
            match spec_bitmap_from(value@) {
                Ok((p, s, t)) => r matches Ok(b) && b.primary_bitmap == p && b.secondary_bitmap == s
                    && b.tertiary_bitmap == t,
                Err(n) => r == Err::<Bitmap, ReadError>(ReadError::BitmapMissing(n)),
            },
    {
        let len = value.len();
        if len < 8 {
            return Err(ReadError::BitmapMissing(1));
        }
        let primary_bitmap = read_word(value, 0);
        assert(STARTING_BIT >> 0u64 == 1u64 << 63u64) by (bit_vector);
        let secondary_bitmap = if primary_bitmap & (1u64 << 63u64) != 0 {
            if len < 16 {
                return Err(ReadError::BitmapMissing(2));
            }
            Some(read_word(value, 8))
        } else {
            None
        };
        let tertiary_bitmap = match secondary_bitmap {
            Some(secondary_bitmap) => if secondary_bitmap & (1u64 << 63u64) != 0 {
                if len < 24 {
                    return Err(ReadError::BitmapMissing(3));
                }
                Some(read_word(value, 16))
            } else {
                None
            },
            None => None,
        };
        Ok(Bitmap { primary_bitmap, secondary_bitmap, tertiary_bitmap })
    }

    /// 64 for each word present (the number of bits the bitmaps take).
    pub fn bytes_consumed(&self) -> (r: usize)
        ensures
            r == 64 + (if self.secondary_bitmap is Some {
                64int
            } else {
                0
            }) + (if self.tertiary_bitmap is Some {
                64int
            } else {
                0
            }),
    {
        let secondary = match self.secondary_bitmap {
            Some(_) => 64,
            None => 0,
        };
        let tertiary = match self.tertiary_bitmap {
            Some(_) => 64,
            None => 0,
        };
        64 + secondary + tertiary
    }

    /// The data elements that the bitmaps announce, in increasing order:
    /// bit `p` (0 is the most significant bit) of word `i` announces
    /// `1 + p + 64 * i`.
    pub fn into_iter(self) -> (r: std::vec::IntoIter<usize>)
        ensures
            r.remaining() == announced_upto(self.words(), (64 * self.words().len()) as nat),
    {
        self.data_elements().into_iter()
    }

    /// The data elements that the bitmaps announce, in increasing order.
    pub(crate) fn data_elements(&self) -> (r: Vec<usize>)
        ensures
            r@ == announced_upto(self.words(), (64 * self.words().len()) as nat),
    {
        let mut words: Vec<u64> = Vec::new();
        words.push(self.primary_bitmap);
        if let Some(secondary_bitmap) = self.secondary_bitmap {
            words.push(secondary_bitmap);
            if let Some(tertiary_bitmap) = self.tertiary_bitmap {
                words.push(tertiary_bitmap);
            }
        }
        assert(words@ == self.words());
        let mut data_elements: Vec<usize> = Vec::new();
        let mut index: usize = 0;
        while index < words.len()
            invariant
                index <= words@.len(),
                words@.len() <= 3,
                data_elements@ == announced_upto(words@, (64 * index) as nat),
            decreases words@.len() - index,
        {
            let map = words[index];
            let mut position: usize = 0;
            while position < 64
                invariant
                    position <= 64,
                    index < words@.len(),
                    words@.len() <= 3,
                    map == words@[index as int],
                    data_elements@ == announced_upto(words@, (64 * index + position) as nat),
                decreases 64 - position,
            {
                assert((64 * index + position) / 64 == index && (64 * index + position) % 64 == position)
                    by (nonlinear_arith)
                    requires
                        position < 64,
                ;
                if map & (STARTING_BIT >> (position as u64)) != 0 {
                    data_elements.push(64 * index + position + 1);
                }
                position = position + 1;
            }
            index = index + 1;
        }
        data_elements
    }
}

} // verus!
