//! Plain helpers with no parsing in them.
use vstd::prelude::*;
use crate::strings::{all_digits, decimal, decimal_value, lemma_decimal_reads_back, usize_to_decimal};

verus! {

/// Formats the sum of two numbers as a decimal string.
pub fn sum_as_string(a: usize, b: usize) -> (s: String)
    requires
        a + b <= usize::MAX,
    ensures
        s@ == decimal((a + b) as nat),
{
    usize_to_decimal(a + b)
}

/// The text `sum_as_string` gives for `a` and `b` is a decimal numeral that
/// reads back as `a + b`, and does not depend on the order of the two.
pub proof fn lemma_sum_as_string_reads_back(a: usize, b: usize)
    requires
        a + b <= usize::MAX,
    ensures
        decimal((a + b) as nat) == decimal((b + a) as nat),
        decimal((a + b) as nat).len() > 0,
        all_digits(decimal((a + b) as nat)),
        decimal((a + b) as nat)[0] == '0' ==> a + b == 0,
        decimal_value(decimal((a + b) as nat)) == a + b,
{
    lemma_decimal_reads_back((a + b) as nat);
}

/// The values before the first error in `items`.
pub open spec fn oks_before_error<E>(items: Seq<Result<i32, E>>) -> Seq<i32>
    decreases items.len(),
{
    if items.len() == 0 {
        seq![]
    } else {
        match items[0] {
            Ok(v) => seq![v] + oks_before_error(items.drop_first()),
            Err(_) => seq![],
        }
    }
}

/// The first error in `items`, if there is one.
pub open spec fn first_error<E>(items: Seq<Result<i32, E>>) -> Option<E>
    decreases items.len(),
{
    if items.len() == 0 {
        None
    } else {
        match items[0] {
            Ok(_) => first_error(items.drop_first()),
            Err(e) => Some(e),
        }
    }
}

/// The sum of `vs`.
pub open spec fn sum_of(vs: Seq<i32>) -> int
    decreases vs.len(),
{
    if vs.len() == 0 {
        0
    } else {
        sum_of(vs.drop_last()) + vs.last()
    }
}

/// Every running total of `vs`, from the left, fits in an `i32`.
pub open spec fn sums_fit(vs: Seq<i32>) -> bool {
    forall|k: int| 0 <= k <= vs.len() ==> i32::MIN <= #[trigger] sum_of(vs.take(k)) <= i32::MAX
}

/// Adds up the values in `items` until the first error, and gives that error
/// if there is one, else the sum.
pub fn fold_list<E>(items: Vec<Result<i32, E>>) -> (r: Result<i32, E>)
    requires
        sums_fit(oks_before_error(items@)),
    ensures
        match first_error(items@) {
            Some(e) => r == Err::<i32, E>(e),
            None => r == Ok::<i32, E>(sum_of(oks_before_error(items@)) as i32),
        },
{
    let ghost all = items@;
    let ghost mut done: Seq<i32> = Seq::empty();
    let mut rest = items;
    let mut total: i32 = 0;
    let mut failed: Option<E> = None;
    assert(done + oks_before_error(rest@) =~= oks_before_error(all));
    while rest.len() > 0
        invariant_except_break
            first_error(rest@) == first_error(all),
            done + oks_before_error(rest@) == oks_before_error(all),
            total == sum_of(done),
            sums_fit(oks_before_error(all)),
            failed is None,
        ensures
            match failed {
                Some(e) => first_error(all) == Some(e),
                None => first_error(all) is None && total == sum_of(oks_before_error(all)),
            },
        decreases rest.len(),
    {
        let ghost cur = rest@;
        let item = rest.remove(0);
        assert(rest@ =~= cur.drop_first());
        match item {
            Ok(v) => {
                proof {
                    let next = done.push(v);
                    assert(done + oks_before_error(cur) =~= next + oks_before_error(rest@));
                    assert(next.drop_last() =~= done);
                    assert(oks_before_error(all).take(next.len() as int) =~= next);
                    assert(i32::MIN <= sum_of(oks_before_error(all).take(next.len() as int)) <= i32::MAX);
                    done = next;
                }
                total = total + v;
                if rest.len() == 0 {
                    assert(done =~= oks_before_error(all));
                }
            },
            Err(e) => {
                assert(first_error(cur) == Some::<E>(e));
                failed = Some(e);
                break;
            },
        }
    }
    match failed {
        Some(e) => Err(e),
        None => Ok(total),
    }
}

/// Two strings and a value of any type.
pub struct Bar<A> {
    pub foo: String,
    pub bar: String,
    pub other: A,
}

/// The number of bytes that the UTF-8 encoding of `s` takes.
pub open spec fn utf8_len(s: Seq<char>) -> nat {
    vstd::utf8::encode_utf8(s).len()
}

impl<A> Bar<A> {
    pub fn new(a: String, b: String, other: A) -> (r: Self)
        ensures
            r.foo == a,
            r.bar == b,
            r.other == other,
    {
        Bar { foo: a, bar: b, other }
    }

    /// The byte lengths of `foo` and `bar` added together.
    pub fn combo_length(&self) -> (n: usize)
        requires
            utf8_len(self.foo@) + utf8_len(self.bar@) <= usize::MAX,
        ensures
            n == utf8_len(self.foo@) + utf8_len(self.bar@),
    {
        self.foo.as_str().len() + self.bar.as_str().len()
    }

    pub fn static_demo() -> (s: String)
        ensures
            s@ == "Successfully called a static method"@,
    {
        String::from_str("Successfully called a static method")
    }
}

/// The text the class method reports for the value `attr` of its class
/// attribute, as `str()` renders it.
pub fn class_method_message(attr: String) -> (s: String)
    ensures
        s@ == "Successfully called a class method: "@ + attr@,
{
    let mut s = String::from_str("Successfully called a class method: ");
    s.append(attr.as_str());
    s
}

} // verus!
