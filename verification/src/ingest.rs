use vstd::prelude::*;

use crate::model::Event;

verus! {

/// One line of the delivery event log: a user and the items delivered to
/// them. Parsing the line is the caller's concern; this type holds the
/// parsed values and turns them into interaction events.
pub struct TestEvent {
    user_id: String,
    deliveries: Vec<String>,
}

impl TestEvent {
    /// The user identifier.
    pub closed spec fn user(self) -> Seq<char> {
        self.user_id@
    }

    /// The delivered item identifiers, in log order.
    pub closed spec fn items(self) -> Seq<Seq<char>> {
        self.deliveries@.map_values(|s: String| s@)
    }

    pub fn new(user_id: String, deliveries: Vec<String>) -> (r: TestEvent)
        ensures
            r.user() == user_id@,
            r.items() == deliveries@.map_values(|s: String| s@),
    {
        TestEvent { user_id, deliveries }
    }

    /// How many deliveries the line holds; the event logs are consumed
    /// with a threshold on this count.
    pub fn delivery_count(&self) -> (r: usize)
        ensures
            r == self.items().len(),
    {
        self.deliveries.len()
    }

    /// One interaction event per delivered item, all for this line's user.
    pub fn to_events(&self) -> (r: Vec<Event>)
        ensures
            r@.len() == self.items().len(),
            forall|i: int|
                0 <= i < r@.len() ==> (#[trigger] r@[i]).user() == self.user() && r@[i].target()
                    == self.items()[i],
    {
        let n = self.deliveries.len();
        let mut r: Vec<Event> = Vec::new();
        let mut i: usize = 0;
        while i < n
            invariant
                n == self.items().len(),
                0 <= i <= n,
                r@.len() == i,
                forall|w: int|
                    0 <= w < i ==> (#[trigger] r@[w]).user() == self.user() && r@[w].target()
                        == self.items()[w],
            decreases n - i,
        {
            let ev = Event::new(self.user_id.clone(), self.deliveries[i].clone());
            r.push(ev);
            i = i + 1;
        }
        r
    }
}

/// One row of the e-commerce export: customer and product, either of which
/// the export may leave blank. Rows with a blank field carry no usable
/// interaction and convert to nothing.
pub struct ECommerceRecord {
    user_id: Option<String>,
    product_id: Option<String>,
}

impl ECommerceRecord {
    /// The customer identifier, when the row holds one.
    pub closed spec fn user(self) -> Option<Seq<char>> {
        match self.user_id {
            Option::Some(s) => Option::Some(s@),
            Option::None => Option::None,
        }
    }

    /// The product identifier, when the row holds one.
    pub closed spec fn product(self) -> Option<Seq<char>> {
        match self.product_id {
            Option::Some(s) => Option::Some(s@),
            Option::None => Option::None,
        }
    }

    pub fn new(user_id: Option<String>, product_id: Option<String>) -> (r: ECommerceRecord)
        ensures
            (r.user() is Some) == (user_id is Some),
            (r.product() is Some) == (product_id is Some),
            user_id is Some ==> r.user()->Some_0 == user_id->Some_0@,
            product_id is Some ==> r.product()->Some_0 == product_id->Some_0@,
    {
        ECommerceRecord { user_id, product_id }
    }

    /// The row's interaction event, or nothing when a field is blank.
    pub fn to_event(self) -> (r: Option<Event>)
        ensures
            (r is Some) == (self.user() is Some && self.product() is Some),
            r is Some ==> r->Some_0.user() == self.user()->Some_0 && r->Some_0.target()
                == self.product()->Some_0,
    {
        match (self.user_id, self.product_id) {
            (Some(u), Some(p)) => Some(Event::new(u, p)),
            _ => None,
        }
    }
}

} // verus!
