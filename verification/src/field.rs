use vstd::prelude::*;
use vstd::std_specs::cmp::PartialEqSpecImpl;

verus! {

/// Width of a field element in bits.
pub const FIELD_SIZE_IN_BITS: usize = 256;

/// Length of the canonical encoding of a field element in bytes.
pub const FIELD_SIZE_IN_BYTES: usize = 32;

/// An opaque commitment value: a hash output, held as its canonical
/// little-endian encoding. No arithmetic is done on it; it is copied,
/// compared and written out.
#[derive(Clone, Copy, Debug, Hash)]
pub struct Field {
    bytes: [u8; 32],
}

impl View for Field {
    type V = Seq<u8>;

    /// The canonical encoding.
    closed spec fn view(&self) -> Seq<u8> {
        self.bytes@
    }
}

/// The array that holds the first `k` bytes of `s`, and zeros after them.
spec fn filled(s: Seq<u8>, k: nat) -> [u8; 32]
    decreases k,
{
    if k == 0 {
        vstd::array::spec_array_fill_for_copy_type::<u8, 32>(0u8)
    } else {
        vstd::array::spec_array_update(filled(s, (k - 1) as nat), k - 1, s[k - 1])
    }
}

proof fn lemma_filled(s: Seq<u8>, k: nat)
    requires
        k <= 32,
    ensures
        filled(s, k)@.len() == 32,
        forall|j: int| 0 <= j < k ==> filled(s, k)@[j] == s[j],
    decreases k,
{
    broadcast use vstd::array::group_array_axioms;
    if k > 0 {
        lemma_filled(s, (k - 1) as nat);
    }
}

impl Field {
    /// The field element whose canonical encoding is `s`, for an `s` of
    /// `FIELD_SIZE_IN_BYTES` bytes.
    pub closed spec fn of_bytes(s: Seq<u8>) -> Field {
        Field { bytes: filled(s, 32) }
    }

    /// Every canonical encoding has `FIELD_SIZE_IN_BYTES` bytes.
    pub broadcast proof fn lemma_view_len(self)
        ensures
            #[trigger] self@.len() == FIELD_SIZE_IN_BYTES,
    {
        broadcast use vstd::array::group_array_axioms;
    }

    /// Two field elements with the same encoding are the same element.
    pub proof fn lemma_view_injective(a: Field, b: Field)
        requires
            a@ == b@,
        ensures
            a == b,
    {
        broadcast use vstd::array::group_array_axioms;
        assert(a.bytes =~= b.bytes);
    }

    /// Every string of `FIELD_SIZE_IN_BYTES` bytes is the encoding of a
    /// field element: of `of_bytes` of it.
    pub proof fn lemma_of_bytes(s: Seq<u8>)
        requires
            s.len() == FIELD_SIZE_IN_BYTES,
        ensures
            Field::of_bytes(s)@ == s,
    {
        lemma_filled(s, 32);
        assert(Field::of_bytes(s)@ =~= s);
    }

    /// Decoding the encoding of a field element gives that element back.
    pub broadcast proof fn lemma_of_bytes_view(self)
        ensures
            #[trigger] Field::of_bytes(self@) == self,
    {
        self.lemma_view_len();
        Field::lemma_of_bytes(self@);
        Field::lemma_view_injective(Field::of_bytes(self@), self);
    }

    /// Wraps a canonical encoding.
    pub fn new(bytes: [u8; 32]) -> (f: Field)
        ensures
            f@ == bytes@,
    {
        Field { bytes }
    }

    /// Reads a field element from exactly `FIELD_SIZE_IN_BYTES` bytes.
    pub fn from_bytes_le(bytes: &[u8]) -> (r: Option<Field>)
        ensures
            bytes@.len() == FIELD_SIZE_IN_BYTES ==> r == Some(Field::of_bytes(bytes@)) && r.unwrap()@ == bytes@,
            bytes@.len() != FIELD_SIZE_IN_BYTES ==> r is None,
    {
        if bytes.len() != 32 {
            return None;
        }
        let mut buf: [u8; 32] = [0u8; 32];
        let mut i: usize = 0;
        while i < 32
            invariant
                i <= 32,
                bytes@.len() == 32,
                forall|j: int| 0 <= j < i ==> buf@[j] == bytes@[j],
            decreases 32 - i,
        {
            buf[i] = bytes[i];
            i += 1;
        }
        let f = Field { bytes: buf };
        proof {
            assert(f@ =~= bytes@);
            f.lemma_of_bytes_view();
        }
        Some(f)
    }

    /// Appends the canonical encoding to `out`.
    pub fn write_le(&self, out: &mut Vec<u8>)
        ensures
            final(out)@ == old(out)@ + self@,
    {
        let ghost before = out@;
        let mut i: usize = 0;
        while i < 32
            invariant
                i <= 32,
                out@.len() == before.len() + i,
                forall|j: int| 0 <= j < before.len() ==> out@[j] == before[j],
                forall|j: int| 0 <= j < i ==> out@[before.len() + j] == self.bytes@[j],
            decreases 32 - i,
        {
            out.push(self.bytes[i]);
            i += 1;
        }
        proof {
            assert(out@ =~= before + self@);
        }
    }

    /// The canonical encoding, as a new vector.
    pub fn to_bytes_le(&self) -> (v: Vec<u8>)
        ensures
            v@ == self@,
    {
        let mut v: Vec<u8> = Vec::new();
        self.write_le(&mut v);
        proof {
            assert(v@ =~= self@);
        }
        v
    }
}

impl PartialEq for Field {
    fn eq(&self, other: &Self) -> (r: bool) {
        let mut i: usize = 0;
        while i < 32
            invariant
                i <= 32,
                forall|j: int| 0 <= j < i ==> self.bytes@[j] == other.bytes@[j],
            decreases 32 - i,
        {
            if self.bytes[i] != other.bytes[i] {
                return false;
            }
            i += 1;
        }
        proof {
            assert(self@ =~= other@);
        }
        true
    }
}

impl PartialEqSpecImpl for Field {
    open spec fn obeys_eq_spec() -> bool {
        true
    }

    open spec fn eq_spec(&self, other: &Self) -> bool {
        self@ == other@
    }
}

impl Eq for Field {

}

} // verus!
