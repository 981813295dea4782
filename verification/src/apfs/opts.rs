//! Options of a new container.

use vstd::prelude::*;

use crate::archive::digits;
use crate::error::{Error, Result};
use crate::options::{self, OptionMap};
use crate::text::copy_text;

verus! {

/// Options of a new container.
#[derive(Debug)]
pub struct ApfsFormatOpts {
    pub total_blocks: u64,
    pub block_size: u32,
    pub volume_name: String,
}

/// Options of a new container, as a mathematical value.
#[verifier::ext_equal]
pub struct Wish {
    pub total_blocks: u64,
    pub block_size: u32,
    pub volume_name: Seq<char>,
}

impl View for ApfsFormatOpts {
    type V = Wish;

    open spec fn view(&self) -> Wish {
        Wish {
            total_blocks: self.total_blocks,
            block_size: self.block_size,
            volume_name: self.volume_name@,
        }
    }
}

impl Default for ApfsFormatOpts {
    /// A container of 64 blocks of 4096 bytes, with a volume named "APFS".
    fn default() -> (r: Self)
        ensures
            r@ == (Wish { total_blocks: 64, block_size: 4096, volume_name: "APFS"@ }),
    {
        ApfsFormatOpts { total_blocks: 64, block_size: 4096, volume_name: copy_text("APFS") }
    }
}

/// The low 32 bits of `n`.
pub open spec fn low32(n: u64) -> u32 {
    (n as int % 0x1_0000_0000) as u32
}

impl Wish {
    /// With the texts of the options `volume_name` and `volume_label`, the latter
    /// going first, and the options that are left.
    pub open spec fn named(self, m: Seq<(Seq<char>, Seq<char>)>) -> (
        Wish,
        Seq<(Seq<char>, Seq<char>)>,
    ) {
        let (a, m2) = options::taken(m, "volume_name"@);
        let (b, m3) = options::taken(m2, "volume_label"@);
        let name = match b {
            Some(s) => s,
            None => match a {
                Some(s) => s,
                None => self.volume_name,
            },
        };
        (Wish { volume_name: name, ..self }, m3)
    }

    /// With the options `m`: what comes of them, what is left of them, and
    /// whether one of them was no number. The options behind such a one are not
    /// looked at.
    pub open spec fn applied(self, m: Seq<(Seq<char>, Seq<char>)>) -> (
        Wish,
        Seq<(Seq<char>, Seq<char>)>,
        Result<()>,
    ) {
        let (size, m2) = options::taken(m, "block_size"@);
        let bad = match size {
            Some(s) => options::size_of(s) is None,
            None => false,
        };
        if bad {
            (self, m2, Err(Error::InvalidArgument))
        } else {
            let w2 = match size {
                Some(s) => Wish { block_size: low32(options::size_of(s).unwrap()), ..self },
                None => self,
            };
            let (total, m3) = options::taken(m2, "total_blocks"@);
            match total {
                None => {
                    let (w, rest) = w2.named(m3);
                    (w, rest, Ok(()))
                },
                Some(s) => match digits::number(digits::trimmed(s), 10) {
                    None => (w2, m3, Err(Error::InvalidArgument)),
                    Some(n) => {
                        let (w, rest) = (Wish { total_blocks: n, ..w2 }).named(m3);
                        (w, rest, Ok(()))
                    },
                },
            }
        }
    }
}

impl ApfsFormatOpts {
    /// Take the options that are known out of `map`.
    pub fn apply_options(&mut self, map: &mut OptionMap) -> (r: Result<()>)
        ensures
            (final(self)@, final(map)@, r) == old(self)@.applied(old(map)@),
    {
        if let Some(n) = map.take_size("block_size")? {
            self.block_size = (n % 0x1_0000_0000) as u32;
        }
        if let Some(n) = map.take_u64("total_blocks")? {
            self.total_blocks = n;
        }
        if let Some(s) = map.take_str("volume_name") {
            self.volume_name = s;
        }
        if let Some(s) = map.take_str("volume_label") {
            self.volume_name = s;
        }
        Ok(())
    }
}

// ---- laws ----

/// The names of the options are four different ones.
proof fn lemma_names()
    ensures
        "block_size"@ != "total_blocks"@,
        "block_size"@ != "volume_name"@,
        "block_size"@ != "volume_label"@,
        "total_blocks"@ != "volume_name"@,
        "total_blocks"@ != "volume_label"@,
        "volume_name"@ != "volume_label"@,
{
    reveal_strlit("block_size");
    reveal_strlit("total_blocks");
    reveal_strlit("volume_name");
    reveal_strlit("volume_label");
    assert("block_size"@.len() == 10);
    assert("volume_name"@.len() == 11);
    assert("total_blocks"@.len() == 12 && "total_blocks"@[0] == 't');
    assert("volume_label"@.len() == 12 && "volume_label"@[0] == 'v');
}

/// The only option that there is, and what is left then.
proof fn lemma_only(k: Seq<char>, v: Seq<char>, q: Seq<char>)
    ensures
        options::taken(seq![(k, v)], q) == if q == k {
            (Some(v), Seq::empty())
        } else {
            (None, seq![(k, v)])
        },
        options::taken(Seq::empty(), q) == (None::<Seq<char>>, Seq::<(Seq<char>, Seq<char>)>::empty()),
{
    let s = seq![(k, v)];
    reveal_with_fuel(options::option_at, 3);
    assert(s[0] == (k, v));
    if q == k {
        assert(s.remove(0) =~= Seq::empty());
    }
}

/// Each option sets just what it names: the size of a block, the number of blocks,
/// or the name of the volume, the last of these by either of two names. A text that
/// is no size or no number is refused, and an option that is not known stays.
pub proof fn lemma_option(w: Wish, k: Seq<char>, v: Seq<char>)
    ensures
        ({
            let none = Seq::<(Seq<char>, Seq<char>)>::empty();
            let r = w.applied(seq![(k, v)]);
            &&& k == "block_size"@ ==> match options::size_of(v) {
                Some(n) => r == (
                    Wish { block_size: (n % 0x1_0000_0000) as u32, ..w },
                    none,
                    Ok::<(), Error>(()),
                ),
                None => r.2 == Err::<(), Error>(Error::InvalidArgument) && r.0 == w,
            }
            &&& k == "total_blocks"@ ==> match digits::number(digits::trimmed(v), 10) {
                Some(n) => r == (Wish { total_blocks: n, ..w }, none, Ok::<(), Error>(())),
                None => r.2 == Err::<(), Error>(Error::InvalidArgument) && r.0 == w,
            }
            &&& k == "volume_name"@ || k == "volume_label"@ ==> r == (
                Wish { volume_name: v, ..w },
                none,
                Ok::<(), Error>(()),
            )
            &&& k != "block_size"@ && k != "total_blocks"@ && k != "volume_name"@ && k
                != "volume_label"@ ==> r == (w, seq![(k, v)], Ok::<(), Error>(()))
        }),
        w.applied(Seq::empty()) == (
            w,
            Seq::<(Seq<char>, Seq<char>)>::empty(),
            Ok::<(), Error>(()),
        ),
{
    lemma_names();
    lemma_only(k, v, "block_size"@);
    lemma_only(k, v, "total_blocks"@);
    lemma_only(k, v, "volume_name"@);
    lemma_only(k, v, "volume_label"@);
}

} // verus!
