//! The dullest possible PDF writer: uncompressed streams, one object per
//! line of the body, and a real `xref` table computed from the byte offsets.

use vstd::prelude::*;
use crate::text::{chars_of, decimal, decimal_of};
use crate::fixture::crypt::{extend, hex, hex_of};

verus! {

/* ------------------------------------------------------------ the file */

/// Text as the bytes a PDF carries it in.
pub open spec fn utf8(s: Seq<char>) -> Seq<u8> {
    vstd::utf8::encode_utf8(s)
}

/// A number in decimal, as bytes.
pub open spec fn number(n: int) -> Seq<u8> {
    utf8(decimal(n as nat))
}

/// A body of PDF objects, numbered from 1, and what the trailer names
/// besides: the `/Info` dictionary, and the `/Encrypt` dictionary with the
/// file identifier the key was derived from.
pub struct Pdf {
    pub objects: Vec<Vec<u8>>,
    pub info: Option<usize>,
    pub encrypt: Option<usize>,
    pub id: Option<[u8; 16]>,
}

/// One object as it stands in the file.
pub open spec fn object_text(index: int, body: Seq<u8>) -> Seq<u8> {
    number(index + 1) + utf8(" 0 obj\n"@) + body + utf8("\nendobj\n"@)
}

/// The header and the objects, in order.
pub open spec fn body_text(objects: Seq<Seq<u8>>) -> Seq<u8>
    decreases objects.len(),
{
    if objects.len() == 0 {
        utf8("%PDF-1.7\n"@)
    } else {
        body_text(objects.drop_last()) + object_text(objects.len() - 1, objects.last())
    }
}

/// Where the `k`th object begins.
pub open spec fn offset_of(objects: Seq<Seq<u8>>, k: int) -> int {
    body_text(objects.take(k)).len() as int
}

/// A number in decimal, made up to ten digits with zeros in front.
pub open spec fn ten_digits(n: int) -> Seq<u8> {
    let d = decimal(n as nat);
    Seq::new(if d.len() < 10 { (10 - d.len()) as nat } else { 0 }, |i: int| 0x30u8) + utf8(d)
}

/// The rows of the cross-reference table for the first `n` objects.
pub open spec fn xref_rows(objects: Seq<Seq<u8>>, n: int) -> Seq<u8>
    decreases n,
{
    if n <= 0 { Seq::empty() } else { xref_rows(objects, n - 1) + ten_digits(offset_of(objects, n - 1)) + utf8(" 00000 n \n"@) }
}

pub open spec fn info_text(info: Option<usize>) -> Seq<u8> {
    match info {
        Some(id) => utf8(" /Info "@) + number(id as int) + utf8(" 0 R"@),
        None => Seq::empty(),
    }
}

pub open spec fn locked_text(encrypt: Option<usize>, id: Option<Seq<u8>>) -> Seq<u8> {
    match (encrypt, id) {
        (Some(e), Some(b)) => utf8(" /Encrypt "@) + number(e as int) + utf8(" 0 R /ID [<"@) + utf8(hex_of(b)) + utf8("> <"@)
            + utf8(hex_of(b)) + utf8(">]"@),
        _ => Seq::empty(),
    }
}

/// The whole file: header, body, `xref` and trailer.
pub open spec fn pdf_file(objects: Seq<Seq<u8>>, info: Option<usize>, encrypt: Option<usize>, id: Option<Seq<u8>>) -> Seq<u8> {
    let n = objects.len() as int;
    let body = body_text(objects);
    body + utf8("xref\n0 "@) + number(n + 1) + utf8("\n0000000000 65535 f \n"@) + xref_rows(objects, n) + utf8("trailer\n<< /Size "@)
        + number(n + 1) + utf8(" /Root 1 0 R"@) + info_text(info) + locked_text(encrypt, id) + utf8(" >>\nstartxref\n"@)
        + number(body.len() as int) + utf8("\n%%EOF\n"@)
}

pub open spec fn bodies(objects: Seq<Vec<u8>>) -> Seq<Seq<u8>> {
    objects.map_values(|o: Vec<u8>| o@)
}

impl Pdf {
    /// The file this body of objects makes.
    pub open spec fn file(&self) -> Seq<u8> {
        pdf_file(bodies(self.objects@), self.info, self.encrypt, match self.id { Some(b) => Some(b@), None => None })
    }

    pub fn new() -> (r: Pdf)
        ensures
            r.objects@.len() == 0,
            r.info is None,
            r.encrypt is None,
            r.id is None,
    {
        Pdf { objects: Vec::new(), info: None, encrypt: None, id: None }
    }

    /// An object number, reserved before what is in it is known: an outline
    /// item names its parent, its siblings and its page, and half of them are
    /// written after it.
    pub fn reserve(&mut self) -> (r: usize)
        requires
            old(self).objects@.len() < usize::MAX,
        ensures
            bodies(final(self).objects@) == bodies(old(self).objects@).push(Seq::empty()),
            r == final(self).objects@.len(),
            final(self).info == old(self).info,
            final(self).encrypt == old(self).encrypt,
            final(self).id == old(self).id,
    {
        self.objects.push(Vec::new());
        proof { assert(bodies(self.objects@) =~= bodies(old(self).objects@).push(Seq::empty())); }
        self.objects.len()
    }

    /// What is in a reserved object.
    pub fn put(&mut self, id: usize, body: Vec<u8>)
        requires
            1 <= id <= old(self).objects@.len(),
        ensures
            bodies(final(self).objects@) == bodies(old(self).objects@).update(id - 1, body@),
            final(self).info == old(self).info,
            final(self).encrypt == old(self).encrypt,
            final(self).id == old(self).id,
    {
        self.objects.set(id - 1, body);
        proof { assert(bodies(self.objects@) =~= bodies(old(self).objects@).update(id - 1, body@)); }
    }

    /// A new object, and its number.
    pub fn add(&mut self, body: Vec<u8>) -> (r: usize)
        requires
            old(self).objects@.len() < usize::MAX,
        ensures
            bodies(final(self).objects@) == bodies(old(self).objects@).push(body@),
            r == final(self).objects@.len(),
            final(self).info == old(self).info,
            final(self).encrypt == old(self).encrypt,
            final(self).id == old(self).id,
    {
        let ghost b = body@;
        let id = self.reserve();
        proof {
            assert(bodies(self.objects@).len() == self.objects@.len());
            assert(bodies(old(self).objects@).len() == old(self).objects@.len());
        }
        self.put(id, body);
        proof { assert(bodies(self.objects@) =~= bodies(old(self).objects@).push(b)); }
        id
    }
}

pub(crate) fn put_text(out: &mut Vec<u8>, s: &str)
    ensures
        final(out)@ == old(out)@ + utf8(s@),
{
    extend(out, s.as_bytes());
}

pub(crate) fn put_number(out: &mut Vec<u8>, n: usize)
    ensures
        final(out)@ == old(out)@ + number(n as int),
{
    let d = decimal_of(n);
    extend(out, d.as_str().as_bytes());
}

proof fn lemma_decimal_is_ascii(n: nat)
    ensures
        decimal(n).len() >= 1,
        forall|i: int| 0 <= i < decimal(n).len() ==> '0' <= #[trigger] decimal(n)[i] <= '9',
    decreases n,
{
    if n >= 10 {
        lemma_decimal_is_ascii(n / 10);
    }
}

pub(crate) fn put_ten_digits(out: &mut Vec<u8>, n: usize)
    ensures
        final(out)@ == old(out)@ + ten_digits(n as int),
{
    let d = decimal_of(n);
    let count = chars_of(d.as_str()).len();
    let mut k: usize = 0;
    let zeros: usize = if count < 10 { 10 - count } else { 0 };
    while k < zeros
        invariant
            k <= zeros,
            out@ == old(out)@ + Seq::new(k as nat, |i: int| 0x30u8),
        decreases zeros - k,
    {
        out.push(0x30);
        proof { assert(old(out)@ + Seq::new((k + 1) as nat, |i: int| 0x30u8) =~= (old(out)@ + Seq::new(k as nat, |i: int| 0x30u8)).push(0x30u8)); }
        k = k + 1;
    }
    let ghost before = out@;
    extend(out, d.as_str().as_bytes());
    proof {
        assert(out@ =~= old(out)@ + ten_digits(n as int));
    }
}

impl Pdf {
    /// The whole file: header, body, `xref` and trailer, the cross-reference
    /// table computed from the byte offsets.
    #[verifier::spinoff_prover]
    #[verifier::rlimit(50)]
    pub fn bytes(&self) -> (r: Vec<u8>)
        requires
            self.objects@.len() < usize::MAX,
        ensures
            r@ == self.file(),
    {
        let ghost objs = bodies(self.objects@);
        let n = self.objects.len();
        let mut out: Vec<u8> = Vec::new();
        put_text(&mut out, "%PDF-1.7\n");
        let mut offsets: Vec<usize> = Vec::new();
        let mut i: usize = 0;
        proof { assert(objs.take(0) =~= Seq::<Seq<u8>>::empty()); }
        while i < n
            invariant
                n == self.objects@.len(),
                objs == bodies(self.objects@),
                i <= n,
                out@ == body_text(objs.take(i as int)),
                offsets@.len() == i,
                forall|k: int| 0 <= k < i ==> #[trigger] offsets@[k] == offset_of(objs, k),
            decreases n - i,
        {
            proof {
                assert(objs.take(i + 1).drop_last() =~= objs.take(i as int));
                assert(objs.take(i + 1).last() == self.objects@[i as int]@);
            }
            offsets.push(out.len());
            put_number(&mut out, i + 1);
            put_text(&mut out, " 0 obj\n");
            extend(&mut out, self.objects[i].as_slice());
            put_text(&mut out, "\nendobj\n");
            proof {
                assert(out@ =~= body_text(objs.take(i + 1)));
            }
            i = i + 1;
        }
        proof { assert(objs.take(n as int) =~= objs); }
        let xref = out.len();
        let ghost body = out@;
        put_text(&mut out, "xref\n0 ");
        put_number(&mut out, n + 1);
        put_text(&mut out, "\n0000000000 65535 f \n");
        let ghost before_rows = out@;
        let mut k: usize = 0;
        while k < n
            invariant
                n == offsets@.len(),
                n == objs.len(),
                forall|j: int| 0 <= j < n ==> #[trigger] offsets@[j] == offset_of(objs, j),
                k <= n,
                out@ == before_rows + xref_rows(objs, k as int),
            decreases n - k,
        {
            put_ten_digits(&mut out, offsets[k]);
            put_text(&mut out, " 00000 n \n");
            proof { assert(out@ =~= before_rows + xref_rows(objs, k + 1)); }
            k = k + 1;
        }
        put_text(&mut out, "trailer\n<< /Size ");
        put_number(&mut out, n + 1);
        put_text(&mut out, " /Root 1 0 R");
        let ghost before_info = out@;
        match self.info {
            Some(id) => {
                put_text(&mut out, " /Info ");
                put_number(&mut out, id);
                put_text(&mut out, " 0 R");
            },
            None => {},
        }
        proof { assert(out@ =~= before_info + info_text(self.info)); }
        let ghost before_lock = out@;
        match (self.encrypt, self.id) {
            (Some(e), Some(b)) => {
                put_text(&mut out, " /Encrypt ");
                put_number(&mut out, e);
                put_text(&mut out, " 0 R /ID [<");
                let h = hex(b.as_slice());
                put_text(&mut out, h.as_str());
                put_text(&mut out, "> <");
                put_text(&mut out, h.as_str());
                put_text(&mut out, ">]");
                proof { assert(out@ =~= before_lock + locked_text(self.encrypt, Some(b@))); }
            },
            _ => {
                proof { assert(out@ =~= before_lock + locked_text(self.encrypt, match self.id { Some(b) => Some(b@), None => None })); }
            },
        }
        put_text(&mut out, " >>\nstartxref\n");
        put_number(&mut out, xref);
        put_text(&mut out, "\n%%EOF\n");
        proof {
            assert(out@ =~= self.file());
        }
        out
    }
}

proof fn lemma_body_prefix(objects: Seq<Seq<u8>>, j: int)
    requires
        0 <= j <= objects.len(),
    ensures
        body_text(objects).subrange(0, body_text(objects.take(j)).len() as int) == body_text(objects.take(j)),
        body_text(objects.take(j)).len() <= body_text(objects).len(),
    decreases objects.len() - j,
{
    if j == objects.len() {
        assert(objects.take(j) =~= objects);
        assert(body_text(objects).subrange(0, body_text(objects).len() as int) =~= body_text(objects));
    } else {
        lemma_body_prefix(objects, j + 1);
        let t = objects.take(j + 1);
        assert(t.drop_last() =~= objects.take(j));
        let a = body_text(objects.take(j));
        let b = body_text(t);
        assert(b == a + object_text(j, t.last()));
        assert(b.subrange(0, a.len() as int) =~= a);
        assert(body_text(objects).subrange(0, a.len() as int) =~= body_text(objects).subrange(0, b.len() as int).subrange(0, a.len() as int));
    }
}

/// The cross-reference table tells the truth: at the offset it gives for
/// each object stands that object, number first; and `startxref` gives where
/// the table itself begins.
#[verifier::spinoff_prover]
#[verifier::rlimit(50)]
pub proof fn law_the_xref_points_at_each_object(
    objects: Seq<Seq<u8>>,
    info: Option<usize>,
    encrypt: Option<usize>,
    id: Option<Seq<u8>>,
    k: int,
)
    requires
        0 <= k < objects.len(),
    ensures
        ({
            let file = pdf_file(objects, info, encrypt, id);
            let at = offset_of(objects, k);
            &&& file.subrange(at, at + object_text(k, objects[k]).len()) == object_text(k, objects[k])
            &&& file.subrange(body_text(objects).len() as int, (body_text(objects).len() + utf8("xref\n0 "@).len()) as int) == utf8("xref\n0 "@)
        }),
{
    let file = pdf_file(objects, info, encrypt, id);
    let body = body_text(objects);
    lemma_body_prefix(objects, k + 1);
    let t = objects.take(k + 1);
    assert(t.drop_last() =~= objects.take(k));
    assert(t.last() == objects[k]);
    let a = body_text(objects.take(k));
    let o = object_text(k, objects[k]);
    assert(body_text(t) == a + o);
    let at = a.len() as int;
    assert(file.subrange(0, body.len() as int) =~= body);
    assert(body.subrange(0, (a + o).len() as int) == a + o);
    assert(file.subrange(at, at + o.len()) =~= (a + o).subrange(at, at + o.len()));
    assert((a + o).subrange(at, at + o.len()) =~= o);
    let x = utf8("xref\n0 "@);
    assert(file.subrange(body.len() as int, (body.len() + x.len()) as int) =~= x);
}

} // verus!
