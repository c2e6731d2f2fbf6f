use vstd::prelude::*;
use vstd::string::StringExecFns;

verus! {

/// A singly linked list of `u32` values.
pub enum List {
    /// A value followed by the rest of the list.
    NextElem(u32, Box<List>),
    /// The empty list.
    End,
}

/// The values of `l`, front first.
pub open spec fn elems(l: &List) -> Seq<u32>
    decreases l,
{
    match l {
        List::NextElem(v, next) => seq![*v] + elems(next),
        List::End => Seq::empty(),
    }
}

impl View for List {
    type V = Seq<u32>;

    open spec fn view(&self) -> Seq<u32> {
        elems(self)
    }
}

/// The character of the decimal digit `d`.
pub open spec fn digit_char(d: nat) -> char {
    ('0' as nat + d) as char
}

/// The decimal digits of `n`, most significant first, with no sign and no
/// leading zeros.
pub open spec fn decimal(n: nat) -> Seq<char>
    decreases n,
{
    if n < 10 {
        seq![digit_char(n)]
    } else {
        decimal(n / 10) + seq![digit_char(n % 10)]
    }
}

/// The text of a list of values: each value in decimal followed by `", "`,
/// and then `"End of Linked List"`.
pub open spec fn rendering(s: Seq<u32>) -> Seq<char>
    decreases s.len(),
{
    if s.len() == 0 {
        "End of Linked List"@
    } else {
        decimal(s[0] as nat) + ", "@ + rendering(s.drop_first())
    }
}

/// Relies on `u32`'s `to_string`, through `Display`: the decimal digits of
/// `n`, with no sign and no padding.
#[verifier::external_body]
fn decimal_string(n: u32) -> (r: String)
    ensures
        r@ == decimal(n as nat),
{
    n.to_string()
}

impl List {
    /// The empty list.
    pub fn new() -> (r: List)
        ensures
            r@ == Seq::<u32>::empty(),
    {
        List::End
    }

    /// The list with `elem` in front of `self`.
    pub fn prepend(self, elem: u32) -> (r: List)
        ensures
            r@ == seq![elem] + self@,
    {
        List::NextElem(elem, Box::new(self))
    }

    /// Prepends the values of `elems` one by one, first to last, so that the
    /// last of them ends up in front.
    pub fn prepend_list(self, elems: &[u32]) -> (r: List)
        ensures
            r@ == elems@.reverse() + self@,
    {
        let ghost start = self@;
        let mut temp = self;
        for i in 0..elems.len()
            invariant
                temp@ == elems@.subrange(0, i as int).reverse() + start,
        {
            let ghost before = temp@;
            temp = temp.prepend(elems[i]);
            assert(elems@.subrange(0, i + 1).reverse() =~= seq![elems@[i as int]]
                + elems@.subrange(0, i as int).reverse());
            assert(temp@ =~= elems@.subrange(0, i + 1).reverse() + start);
        }
        assert(elems@.subrange(0, elems@.len() as int) =~= elems@);
        temp
    }

    /// The number of values in the list.
    pub fn len(&self) -> (r: u32)
        requires
            self@.len() <= u32::MAX,
        ensures
            r == self@.len(),
        decreases self,
    {
        match self {
            List::NextElem(_, next) => 1 + next.len(),
            List::End => 0,
        }
    }

    /// The values in decimal, front first, each followed by `", "`, and then
    /// `"End of Linked List"`.
    pub fn stringify(&self) -> (r: String)
        ensures
            r@ == rendering(self@),
        decreases self,
    {
        match self {
            List::NextElem(v, next) => {
                let mut text = decimal_string(*v);
                text.append(", ");
                let rest = next.stringify();
                text.append(rest.as_str());
                assert(self@.drop_first() =~= next@);
                text
            },
            List::End => String::from_str("End of Linked List"),
        }
    }
}

} // verus!
