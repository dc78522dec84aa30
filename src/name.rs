//! Domain names: the label rules, the uncompressed wire form, parsing from
//! dotted text, and decoding with compression pointers.
use vstd::prelude::*;
use vstd::slice::{slice_subrange, slice_to_vec};
use crate::error::CodecError;

verus! {

/// A domain name as its sequence of labels, leftmost first.
#[derive(Debug)]
pub struct DomainName {
    pub labels: Vec<Vec<u8>>,
}

impl View for DomainName {
    type V = Seq<Seq<u8>>;

    open spec fn view(&self) -> Seq<Seq<u8>> {
        self.labels@.map_values(|l: Vec<u8>| l@)
    }
}

pub const DOT: u8 = 46;

pub const MAX_LABEL: usize = 63;

pub const MAX_NAME: usize = 255;

pub open spec fn label_ok(l: Seq<u8>) -> bool {
    1 <= l.len() <= MAX_LABEL
}

/// A label on the wire: its length byte, then its bytes.
pub open spec fn label_bytes(l: Seq<u8>) -> Seq<u8> {
    seq![l.len() as u8] + l
}

pub open spec fn labels_bytes(ls: Seq<Seq<u8>>) -> Seq<u8> {
    ls.map_values(|l: Seq<u8>| label_bytes(l)).flatten()
}

/// The uncompressed wire form: each label, then the zero-length root label.
pub open spec fn name_bytes(ls: Seq<Seq<u8>>) -> Seq<u8> {
    labels_bytes(ls).push(0u8)
}

/// Every label holds 1 to 63 bytes and the wire form is at most 255 bytes.
pub open spec fn valid_name(ls: Seq<Seq<u8>>) -> bool {
    &&& forall|i: int| 0 <= i < ls.len() ==> label_ok(#[trigger] ls[i])
    &&& name_bytes(ls).len() <= MAX_NAME
}

/// Dotted text cut at each dot; `""` gives one empty label.
pub open spec fn split_dots(s: Seq<u8>) -> Seq<Seq<u8>>
    decreases s.len(),
{
    if s.len() == 0 {
        seq![Seq::<u8>::empty()]
    } else {
        let r = split_dots(s.drop_last());
        if s.last() == DOT {
            r.push(Seq::<u8>::empty())
        } else {
            r.update(r.len() - 1, r.last().push(s.last()))
        }
    }
}

proof fn lemma_labels_bytes_push(ls: Seq<Seq<u8>>, l: Seq<u8>)
    ensures
        labels_bytes(ls.push(l)) == labels_bytes(ls) + label_bytes(l),
{
    let f = |x: Seq<u8>| label_bytes(x);
    assert(ls.push(l).map_values(f) =~= ls.map_values(f).push(label_bytes(l)));
    ls.map_values(f).lemma_flatten_push(label_bytes(l));
}

/// The front of the wire form is the first label.
pub proof fn lemma_labels_bytes_front(ls: Seq<Seq<u8>>)
    requires
        ls.len() > 0,
    ensures
        labels_bytes(ls) == label_bytes(ls[0]) + labels_bytes(ls.drop_first()),
{
    let f = |x: Seq<u8>| label_bytes(x);
    assert(ls.map_values(f).drop_first() =~= ls.drop_first().map_values(f));
}

proof fn lemma_labels_bytes_len(ls: Seq<Seq<u8>>)
    ensures
        labels_bytes(ls).len() >= ls.len(),
    decreases ls.len(),
{
    if ls.len() > 0 {
        lemma_labels_bytes_front(ls);
        lemma_labels_bytes_len(ls.drop_first());
    }
}

proof fn lemma_labels_bytes_prefix(ls: Seq<Seq<u8>>, i: int)
    requires
        0 <= i <= ls.len(),
    ensures
        labels_bytes(ls.take(i)).len() <= labels_bytes(ls).len(),
    decreases ls.len() - i,
{
    if i < ls.len() {
        lemma_labels_bytes_prefix(ls, i + 1);
        assert(ls.take(i + 1) =~= ls.take(i).push(ls[i]));
        lemma_labels_bytes_push(ls.take(i), ls[i]);
    } else {
        assert(ls.take(i) =~= ls);
    }
}

/// A byte with ASCII capitals turned to lower case.
pub open spec fn ascii_lower(b: u8) -> u8 {
    if 65 <= b <= 90 {
        (b + 32) as u8
    } else {
        b
    }
}

pub open spec fn same_label(x: Seq<u8>, y: Seq<u8>) -> bool {
    x.len() == y.len() && forall|j: int| 0 <= j < x.len() ==> ascii_lower(#[trigger] x[j])
        == ascii_lower(y[j])
}

/// Two names are the same name when their labels agree but for ASCII case.
pub open spec fn same_name(a: Seq<Seq<u8>>, b: Seq<Seq<u8>>) -> bool {
    a.len() == b.len() && forall|i: int| 0 <= i < a.len() ==> same_label(#[trigger] a[i], b[i])
}

fn lower(b: u8) -> (r: u8)
    ensures
        r == ascii_lower(b),
{
    if 65 <= b && b <= 90 {
        b + 32
    } else {
        b
    }
}

fn label_eq_ignore_case(x: &Vec<u8>, y: &Vec<u8>) -> (r: bool)
    ensures
        r == same_label(x@, y@),
{
    if x.len() != y.len() {
        return false;
    }
    let mut j: usize = 0;
    while j < x.len()
        invariant
            j <= x.len(),
            x.len() == y.len(),
            forall|k: int| 0 <= k < j ==> ascii_lower(#[trigger] x@[k]) == ascii_lower(y@[k]),
        decreases x.len() - j,
    {
        if lower(x[j]) != lower(y[j]) {
            return false;
        }
        j = j + 1;
    }
    true
}

impl DomainName {
    /// Compares two names label by label, ignoring ASCII case.
    pub fn eq_ignore_case(&self, other: &DomainName) -> (r: bool)
        ensures
            r == same_name(self@, other@),
    {
        if self.labels.len() != other.labels.len() {
            return false;
        }
        let mut i: usize = 0;
        while i < self.labels.len()
            invariant
                i <= self.labels.len(),
                self.labels.len() == other.labels.len(),
                forall|k: int| 0 <= k < i ==> same_label(#[trigger] self@[k], other@[k]),
            decreases self.labels.len() - i,
        {
            assert(self@[i as int] == self.labels@[i as int]@);
            assert(other@[i as int] == other.labels@[i as int]@);
            if !label_eq_ignore_case(&self.labels[i], &other.labels[i]) {
                return false;
            }
            i = i + 1;
        }
        true
    }
}

/// Checks the label rules; on success the labels' wire form is at most
/// 254 bytes, so the whole name fits in 255.
fn check_labels(labels: &Vec<Vec<u8>>) -> (r: bool)
    ensures
        r == valid_name(labels@.map_values(|l: Vec<u8>| l@)),
{
    let ghost ls = labels@.map_values(|l: Vec<u8>| l@);
    let mut total: usize = 0;
    let mut i: usize = 0;
    while i < labels.len()
        invariant
            i <= labels.len(),
            ls == labels@.map_values(|l: Vec<u8>| l@),
            total == labels_bytes(ls.take(i as int)).len(),
            total < MAX_NAME,
            forall|j: int| 0 <= j < i ==> label_ok(#[trigger] ls[j]),
        decreases labels.len() - i,
    {
        let n = labels[i].len();
        proof {
            assert(ls.take(i + 1) =~= ls.take(i as int).push(ls[i as int]));
            lemma_labels_bytes_push(ls.take(i as int), ls[i as int]);
        }
        if n < 1 || n > MAX_LABEL {
            return false;
        }
        if total + n + 1 >= MAX_NAME {
            proof {
                lemma_labels_bytes_prefix(ls, i + 1);
            }
            return false;
        }
        total = total + n + 1;
        i = i + 1;
    }
    assert(ls.take(i as int) =~= ls);
    true
}

/// Appends the uncompressed wire form of `name`, or fails with
/// `InvalidName` (leaving `out` as it was) when the name breaks the label rules.
pub fn encode_name(name: &DomainName, out: &mut Vec<u8>) -> (r: Result<(), CodecError>)
    ensures
        r is Ok <==> valid_name(name@),
        r is Ok ==> final(out)@ == old(out)@ + name_bytes(name@),
        r is Err ==> r == Err::<(), CodecError>(CodecError::InvalidName) && final(out)@ == old(
            out,
        )@,
{
    if !check_labels(&name.labels) {
        return Err(CodecError::InvalidName);
    }
    let ghost ls = name@;
    let ghost start = out@;
    let mut i: usize = 0;
    while i < name.labels.len()
        invariant
            i <= name.labels.len(),
            ls == name@,
            valid_name(ls),
            out@ == start + labels_bytes(ls.take(i as int)),
        decreases name.labels.len() - i,
    {
        let label = &name.labels[i];
        proof {
            assert(ls.take(i + 1) =~= ls.take(i as int).push(ls[i as int]));
            lemma_labels_bytes_push(ls.take(i as int), ls[i as int]);
            assert(label_ok(ls[i as int]));
        }
        out.push(label.len() as u8);
        let mut j: usize = 0;
        while j < label.len()
            invariant
                j <= label.len(),
                label@ == ls[i as int],
                label.len() <= MAX_LABEL,
                out@ == start + labels_bytes(ls.take(i as int)) + seq![label.len() as u8]
                    + label@.take(j as int),
            decreases label.len() - j,
        {
            out.push(label[j]);
            assert(label@.take(j + 1) =~= label@.take(j as int).push(label[j as int]));
            j = j + 1;
        }
        assert(label@.take(j as int) =~= label@);
        assert(out@ =~= start + labels_bytes(ls.take(i + 1)));
        i = i + 1;
    }
    assert(ls.take(i as int) =~= ls);
    out.push(0);
    assert(out@ =~= start + name_bytes(ls));
    Ok(())
}

/// Reads dotted text such as `example.com` into a name: the text is cut at
/// each dot, and the labels must meet the label rules, else `InvalidName`.
pub fn parse_domain(text: &[u8]) -> (r: Result<DomainName, CodecError>)
    ensures
        r is Ok <==> valid_name(split_dots(text@)),
        r matches Ok(n) ==> n@ == split_dots(text@),
        r is Err ==> r == Err::<DomainName, CodecError>(CodecError::InvalidName),
{
    let mut labels: Vec<Vec<u8>> = Vec::new();
    let mut cur: Vec<u8> = Vec::new();
    let mut i: usize = 0;
    while i < text.len()
        invariant
            i <= text.len(),
            split_dots(text@.take(i as int)) == labels@.map_values(|l: Vec<u8>| l@).push(cur@),
        decreases text.len() - i,
    {
        let b = text[i];
        assert(text@.take(i + 1).drop_last() =~= text@.take(i as int));
        if b == DOT {
            let done = cur;
            cur = Vec::new();
            labels.push(done);
            assert(labels@.map_values(|l: Vec<u8>| l@).push(cur@) =~= split_dots(
                text@.take(i + 1),
            ));
        } else {
            let ghost before = labels@.map_values(|l: Vec<u8>| l@).push(cur@);
            cur.push(b);
            assert(labels@.map_values(|l: Vec<u8>| l@).push(cur@) =~= before.update(
                before.len() - 1,
                before.last().push(b),
            ));
        }
        i = i + 1;
    }
    assert(text@.take(i as int) =~= text@);
    labels.push(cur);
    assert(labels@.map_values(|l: Vec<u8>| l@) =~= split_dots(text@));
    if check_labels(&labels) {
        Ok(DomainName { labels })
    } else {
        Err(CodecError::InvalidName)
    }
}

/// The offset that a compression pointer `hi lo` (top two bits of `hi` set) names.
pub open spec fn pointer_target(hi: u8, lo: u8) -> int {
    (hi as int - 0xC0) * 256 + lo as int
}

/// The labels of the name at `pos`, following compression pointers, after
/// those already in `acc`. Each step reads one length or pointer byte and
/// spends one unit of `fuel`; a walk that reads more bytes than the buffer
/// holds has read some position twice, and since each step depends on the
/// position alone it would go round for ever: that is a compression loop.
pub open spec fn walk_labels(buf: Seq<u8>, pos: int, fuel: nat, acc: Seq<Seq<u8>>) -> Result<
    Seq<Seq<u8>>,
    CodecError,
>
    decreases fuel,
{
    if fuel == 0 {
        Err(CodecError::CompressionLoop)
    } else if !(0 <= pos < buf.len()) {
        Err(CodecError::Truncated)
    } else if buf[pos] == 0 {
        Ok(acc)
    } else if buf[pos] >= 0xC0 {
        if pos + 1 >= buf.len() {
            Err(CodecError::Truncated)
        } else {
            walk_labels(buf, pointer_target(buf[pos], buf[pos + 1]), (fuel - 1) as nat, acc)
        }
    } else if buf[pos] >= 0x40 {
        Err(CodecError::InvalidName)
    } else if pos + 1 + buf[pos] > buf.len() {
        Err(CodecError::Truncated)
    } else {
        walk_labels(
            buf,
            pos + 1 + buf[pos],
            (fuel - 1) as nat,
            acc.push(buf.subrange(pos + 1, pos + 1 + buf[pos])),
        )
    }
}

/// Where the name at `pos` ends in the stream: after its root label, or after
/// the first pointer, whose target is read elsewhere.
pub open spec fn name_end(buf: Seq<u8>, pos: int) -> Result<int, CodecError>
    decreases buf.len() - pos,
{
    if !(0 <= pos < buf.len()) {
        Err(CodecError::Truncated)
    } else if buf[pos] == 0 {
        Ok(pos + 1)
    } else if buf[pos] >= 0xC0 {
        if pos + 1 >= buf.len() {
            Err(CodecError::Truncated)
        } else {
            Ok(pos + 2)
        }
    } else if buf[pos] >= 0x40 {
        Err(CodecError::InvalidName)
    } else if pos + 1 + buf[pos] >= buf.len() {
        Err(CodecError::Truncated)
    } else {
        name_end(buf, pos + 1 + buf[pos])
    }
}

/// The name at `pos` of a message, and the position just after it.
pub open spec fn read_name(buf: Seq<u8>, pos: int) -> Result<(Seq<Seq<u8>>, int), CodecError> {
    match walk_labels(buf, pos, buf.len() as nat, seq![]) {
        Err(e) => Err(e),
        Ok(ls) => match name_end(buf, pos) {
            Err(e) => Err(e),
            Ok(end) => Ok((ls, end)),
        },
    }
}

/// Decodes the name at `pos` of the message `buf`, following compression
/// pointers, and returns it with the position just after it.
pub fn decode_name(buf: &[u8], pos: usize) -> (r: Result<(DomainName, usize), CodecError>)
    ensures
        match r {
            Ok((n, end)) => read_name(buf@, pos as int) == Ok::<_, CodecError>((n@, end as int)),
            Err(e) => read_name(buf@, pos as int) == Err::<(Seq<Seq<u8>>, int), _>(e),
        },
{
    let len = buf.len();
    let mut labels: Vec<Vec<u8>> = Vec::new();
    let mut p: usize = pos;
    let mut fuel: usize = len;
    assert(labels@.map_values(|l: Vec<u8>| l@) =~= seq![]);
    while fuel > 0
        invariant
            len == buf@.len(),
            walk_labels(buf@, pos as int, len as nat, seq![]) == walk_labels(
                buf@,
                p as int,
                fuel as nat,
                labels@.map_values(|l: Vec<u8>| l@),
            ),
        ensures
            fuel == 0 || (p < len && buf@[p as int] == 0),
            walk_labels(buf@, pos as int, len as nat, seq![]) == walk_labels(
                buf@,
                p as int,
                fuel as nat,
                labels@.map_values(|l: Vec<u8>| l@),
            ),
        decreases fuel,
    {
        if p >= len {
            return Err(CodecError::Truncated);
        }
        let b = buf[p];
        if b == 0 {
            break;
        }
        if b >= 0xC0 {
            if p + 1 >= len {
                return Err(CodecError::Truncated);
            }
            p = ((b - 0xC0) as usize) * 256 + buf[p + 1] as usize;
        } else if b >= 0x40 {
            return Err(CodecError::InvalidName);
        } else {
            let n = b as usize;
            if n > len - (p + 1) {
                return Err(CodecError::Truncated);
            }
            let label = slice_to_vec(slice_subrange(buf, p + 1, p + 1 + n));
            let ghost before = labels@.map_values(|l: Vec<u8>| l@);
            labels.push(label);
            assert(labels@.map_values(|l: Vec<u8>| l@) =~= before.push(
                buf@.subrange(p + 1, p + 1 + n),
            ));
            p = p + 1 + n;
        }
        fuel = fuel - 1;
    }
    if fuel == 0 {
        return Err(CodecError::CompressionLoop);
    }
    assert(walk_labels(buf@, pos as int, len as nat, seq![]) == Ok::<_, CodecError>(
        labels@.map_values(|l: Vec<u8>| l@),
    ));
    let mut q: usize = pos;
    while q < len
        invariant
            len == buf@.len(),
            walk_labels(buf@, pos as int, len as nat, seq![]) == Ok::<_, CodecError>(
                labels@.map_values(|l: Vec<u8>| l@),
            ),
            name_end(buf@, pos as int) == name_end(buf@, q as int),
        decreases len - q,
    {
        let b = buf[q];
        if b == 0 {
            return Ok((DomainName { labels }, q + 1));
        }
        if b >= 0xC0 {
            if q + 1 >= len {
                return Err(CodecError::Truncated);
            }
            return Ok((DomainName { labels }, q + 2));
        }
        if b >= 0x40 {
            return Err(CodecError::InvalidName);
        }
        if b as usize >= len - q - 1 {
            return Err(CodecError::Truncated);
        }
        q = q + 1 + b as usize;
    }
    Err(CodecError::Truncated)
}

/// A pointer that names its own position never ends: decoding the name there
/// reports a compression loop.
pub proof fn lemma_self_pointer_loops(buf: Seq<u8>, p: int)
    requires
        0 <= p < 0x4000,
        p + 1 < buf.len(),
        buf[p] == 0xC0 + p / 256,
        buf[p + 1] == p % 256,
    ensures
        read_name(buf, p) == Err::<(Seq<Seq<u8>>, int), CodecError>(CodecError::CompressionLoop),
{
    lemma_self_pointer_walk(buf, p, buf.len() as nat, seq![]);
}

proof fn lemma_self_pointer_walk(buf: Seq<u8>, p: int, fuel: nat, acc: Seq<Seq<u8>>)
    requires
        0 <= p < 0x4000,
        p + 1 < buf.len(),
        buf[p] == 0xC0 + p / 256,
        buf[p + 1] == p % 256,
    ensures
        walk_labels(buf, p, fuel, acc) == Err::<Seq<Seq<u8>>, CodecError>(
            CodecError::CompressionLoop,
        ),
    decreases fuel,
{
    if fuel > 0 {
        assert(pointer_target(buf[p], buf[p + 1]) == p);
        lemma_self_pointer_walk(buf, p, (fuel - 1) as nat, acc);
    }
}

/// An uncompressed name decodes to its labels, whatever surrounds it.
pub proof fn lemma_name_round_trip(buf: Seq<u8>, pos: int, ls: Seq<Seq<u8>>)
    requires
        valid_name(ls),
        0 <= pos,
        pos + name_bytes(ls).len() <= buf.len(),
        buf.subrange(pos, pos + name_bytes(ls).len()) == name_bytes(ls),
    ensures
        read_name(buf, pos) == Ok::<_, CodecError>((ls, pos + name_bytes(ls).len())),
{
    lemma_labels_bytes_len(ls);
    lemma_walk_round_trip(buf, pos, ls, buf.len() as nat, seq![]);
    lemma_end_round_trip(buf, pos, ls);
    assert(seq![] + ls =~= ls);
}

proof fn lemma_name_bytes_front(buf: Seq<u8>, pos: int, ls: Seq<Seq<u8>>)
    requires
        ls.len() > 0,
        forall|i: int| 0 <= i < ls.len() ==> label_ok(#[trigger] ls[i]),
        0 <= pos,
        pos + name_bytes(ls).len() <= buf.len(),
        buf.subrange(pos, pos + name_bytes(ls).len()) == name_bytes(ls),
    ensures
        buf[pos] == ls[0].len(),
        1 <= buf[pos] < 0x40,
        buf.subrange(pos + 1, pos + 1 + buf[pos]) == ls[0],
        pos + 1 + ls[0].len() + name_bytes(ls.drop_first()).len() == pos + name_bytes(ls).len(),
        buf.subrange(pos + 1 + ls[0].len(), pos + 1 + ls[0].len() + name_bytes(ls.drop_first()).len())
            == name_bytes(ls.drop_first()),
        forall|i: int| 0 <= i < ls.drop_first().len() ==> label_ok(#[trigger] ls.drop_first()[i]),
{
    lemma_labels_bytes_front(ls);
    let l = ls[0];
    assert(label_ok(l));
    let nb = name_bytes(ls);
    assert(nb =~= label_bytes(l) + name_bytes(ls.drop_first()));
    assert(buf[pos] == nb[0]);
    assert(buf.subrange(pos + 1, pos + 1 + l.len()) =~= nb.subrange(1, 1 + l.len() as int));
    assert(nb.subrange(1, 1 + l.len() as int) =~= l);
    let k: int = 1 + l.len() as int;
    assert(buf.subrange(pos + k, pos + nb.len()) =~= nb.subrange(k, nb.len() as int));
    assert(nb.subrange(k, nb.len() as int) =~= name_bytes(ls.drop_first()));
    assert forall|i: int| 0 <= i < ls.drop_first().len() implies label_ok(
        #[trigger] ls.drop_first()[i],
    ) by {
        assert(ls.drop_first()[i] == ls[i + 1]);
    }
}

proof fn lemma_walk_round_trip(
    buf: Seq<u8>,
    pos: int,
    ls: Seq<Seq<u8>>,
    fuel: nat,
    acc: Seq<Seq<u8>>,
)
    requires
        forall|i: int| 0 <= i < ls.len() ==> label_ok(#[trigger] ls[i]),
        0 <= pos,
        pos + name_bytes(ls).len() <= buf.len(),
        buf.subrange(pos, pos + name_bytes(ls).len()) == name_bytes(ls),
        fuel > ls.len(),
    ensures
        walk_labels(buf, pos, fuel, acc) == Ok::<_, CodecError>(acc + ls),
    decreases ls.len(),
{
    if ls.len() == 0 {
        assert(name_bytes(ls) =~= seq![0u8]);
        assert(buf[pos] == buf.subrange(pos, pos + 1)[0]);
        assert(acc + ls =~= acc);
    } else {
        lemma_name_bytes_front(buf, pos, ls);
        let next = pos + 1 + ls[0].len();
        lemma_walk_round_trip(buf, next, ls.drop_first(), (fuel - 1) as nat, acc.push(ls[0]));
        assert(acc.push(ls[0]) + ls.drop_first() =~= acc + ls);
    }
}

proof fn lemma_end_round_trip(buf: Seq<u8>, pos: int, ls: Seq<Seq<u8>>)
    requires
        forall|i: int| 0 <= i < ls.len() ==> label_ok(#[trigger] ls[i]),
        0 <= pos,
        pos + name_bytes(ls).len() <= buf.len(),
        buf.subrange(pos, pos + name_bytes(ls).len()) == name_bytes(ls),
    ensures
        name_end(buf, pos) == Ok::<_, CodecError>(pos + name_bytes(ls).len()),
    decreases ls.len(),
{
    if ls.len() == 0 {
        assert(name_bytes(ls) =~= seq![0u8]);
        assert(buf[pos] == buf.subrange(pos, pos + 1)[0]);
    } else {
        lemma_name_bytes_front(buf, pos, ls);
        lemma_end_round_trip(buf, pos + 1 + ls[0].len(), ls.drop_first());
    }
}

/// `buf` holds `x` at `pos` as far as `buf` goes.
pub open spec fn agrees(buf: Seq<u8>, pos: int, x: Seq<u8>) -> bool {
    &&& 0 <= pos <= buf.len()
    &&& forall|i: int| 0 <= i < x.len() && pos + i < buf.len() ==> buf[pos + i] == #[trigger] x[i]
}

pub proof fn lemma_agrees_fits(buf: Seq<u8>, pos: int, x: Seq<u8>)
    requires
        agrees(buf, pos, x),
        pos + x.len() <= buf.len(),
    ensures
        buf.subrange(pos, pos + x.len()) == x,
{
    assert forall|i: int| 0 <= i < x.len() implies #[trigger] buf.subrange(pos, pos + x.len())[i]
        == x[i] by {
        assert(buf[pos + i] == x[i]);
    }
    assert(buf.subrange(pos, pos + x.len()) =~= x);
}

pub proof fn lemma_agrees_split(buf: Seq<u8>, pos: int, y: Seq<u8>, z: Seq<u8>)
    requires
        agrees(buf, pos, y + z),
    ensures
        agrees(buf, pos, y),
        pos + y.len() <= buf.len() ==> agrees(buf, pos + y.len(), z),
{
    assert forall|i: int| 0 <= i < y.len() && pos + i < buf.len() implies buf[pos + i]
        == #[trigger] y[i] by {
        assert((y + z)[i] == y[i]);
    }
    if pos + y.len() <= buf.len() {
        assert forall|i: int| 0 <= i < z.len() && pos + y.len() + i < buf.len() implies buf[pos
            + y.len() + i] == #[trigger] z[i] by {
            assert((y + z)[y.len() + i] == z[i]);
        }
    }
}

proof fn lemma_walk_short(buf: Seq<u8>, pos: int, ls: Seq<Seq<u8>>, fuel: nat, acc: Seq<Seq<u8>>)
    requires
        forall|i: int| 0 <= i < ls.len() ==> label_ok(#[trigger] ls[i]),
        agrees(buf, pos, name_bytes(ls)),
        pos + name_bytes(ls).len() > buf.len(),
        fuel >= 1,
        fuel >= buf.len() - pos + 1,
    ensures
        walk_labels(buf, pos, fuel, acc) == Err::<Seq<Seq<u8>>, CodecError>(CodecError::Truncated),
    decreases ls.len(),
{
    if ls.len() > 0 && pos < buf.len() {
        let l = ls[0];
        let rest = ls.drop_first();
        lemma_labels_bytes_front(ls);
        assert(name_bytes(ls) =~= label_bytes(l) + name_bytes(rest));
        assert(label_ok(l));
        assert(buf[pos] == name_bytes(ls)[0]);
        lemma_agrees_split(buf, pos, label_bytes(l), name_bytes(rest));
        let next = pos + 1 + l.len();
        if next <= buf.len() {
            lemma_agrees_fits(buf, pos, label_bytes(l));
            assert(buf.subrange(pos + 1, next) =~= buf.subrange(pos, next).subrange(1, 1 + l.len() as int));
            assert(label_bytes(l).subrange(1, 1 + l.len() as int) =~= l);
            assert forall|i: int| 0 <= i < rest.len() implies label_ok(#[trigger] rest[i]) by {
                assert(rest[i] == ls[i + 1]);
            }
            lemma_walk_short(buf, next, rest, (fuel - 1) as nat, acc.push(l));
        }
    }
}

/// A name cut short by the end of the buffer reads as truncated.
pub proof fn lemma_name_short(buf: Seq<u8>, pos: int, ls: Seq<Seq<u8>>)
    requires
        valid_name(ls),
        1 <= pos,
        agrees(buf, pos, name_bytes(ls)),
        pos + name_bytes(ls).len() > buf.len(),
    ensures
        read_name(buf, pos) == Err::<(Seq<Seq<u8>>, int), CodecError>(CodecError::Truncated),
{
    lemma_walk_short(buf, pos, ls, buf.len() as nat, seq![]);
}

} // verus!
