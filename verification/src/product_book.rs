use vstd::prelude::*;

use crate::command::PutProductCommand;
use crate::message::{MessageType, MessageTypeV, MessageV, Outbox};

verus! {

/// A tradable pair.
#[derive(Debug)]
pub struct Product {
    pub id: String,
    pub base_currency: String,
    pub quote_currency: String,
}

/// The contents of a [`Product`].
pub struct ProductV {
    pub id: Seq<char>,
    pub base_currency: Seq<char>,
    pub quote_currency: Seq<char>,
}

impl View for Product {
    type V = ProductV;

    open spec fn view(&self) -> ProductV {
        ProductV { id: self.id@, base_currency: self.base_currency@, quote_currency: self.quote_currency@ }
    }
}

impl Clone for Product {
    fn clone(&self) -> (r: Self)
        ensures
            r@ == self@,
            r == *self,
    {
        Product {
            id: self.id.clone(),
            base_currency: self.base_currency.clone(),
            quote_currency: self.quote_currency.clone(),
        }
    }
}

impl crate::keyed::Copied for Product {
    fn copied(&self) -> (r: Self) {
        self.clone()
    }
}

impl Product {
    /// The product a put-product command describes.
    pub fn from(value: PutProductCommand) -> (r: Product)
        ensures
            r@ == (ProductV {
                id: value.product_id@,
                base_currency: value.base_currency@,
                quote_currency: value.quote_currency@,
            }),
    {
        Product { id: value.product_id, base_currency: value.base_currency, quote_currency: value.quote_currency }
    }
}

/// The products of a list, found by id; ids are distinct.
pub open spec fn product_map(s: Seq<Product>) -> Map<Seq<char>, ProductV>
    decreases s.len(),
{
    if s.len() == 0 {
        Map::empty()
    } else {
        product_map(s.drop_last()).insert(s.last().id@, s.last()@)
    }
}

pub open spec fn ids_distinct(s: Seq<Product>) -> bool {
    forall|i: int, j: int| 0 <= i < j < s.len() ==> s[i].id@ != s[j].id@
}

proof fn lemma_product_map(s: Seq<Product>)
    requires
        ids_distinct(s),
    ensures
        forall|i: int| 0 <= i < s.len() ==> #[trigger] product_map(s).contains_key(s[i].id@) && product_map(s)[s[i].id@] == s[i]@,
        forall|k: Seq<char>| #[trigger] product_map(s).contains_key(k) ==> exists|i: int| 0 <= i < s.len() && s[i].id@ == k,
    decreases s.len(),
{
    if s.len() > 0 {
        let t = s.drop_last();
        assert forall|i: int, j: int| 0 <= i < j < t.len() implies t[i].id@ != t[j].id@ by {
            assert(t[i] == s[i] && t[j] == s[j]);
        }
        lemma_product_map(t);
        assert forall|i: int| 0 <= i < s.len() implies #[trigger] product_map(s).contains_key(s[i].id@) && product_map(s)[s[i].id@] == s[i]@ by {
            if i < s.len() - 1 {
                assert(t[i] == s[i]);
                assert(product_map(t).contains_key(t[i].id@));
                assert(s[i].id@ != s.last().id@);
            }
        }
        assert forall|k: Seq<char>| #[trigger] product_map(s).contains_key(k) implies exists|i: int| 0 <= i < s.len() && s[i].id@ == k by {
            if k != s.last().id@ {
                assert(product_map(t).contains_key(k));
                let i = choose|i: int| 0 <= i < t.len() && t[i].id@ == k;
                assert(s[i] == t[i]);
            } else {
                assert(s[s.len() - 1].id@ == k);
            }
        }
    }
}

proof fn lemma_product_map_update(s: Seq<Product>, i: int, p: Product)
    requires
        ids_distinct(s),
        0 <= i < s.len(),
        s[i].id@ == p.id@,
    ensures
        ids_distinct(s.update(i, p)),
        product_map(s.update(i, p)) =~= product_map(s).insert(p.id@, p@),
    decreases s.len(),
{
    let u = s.update(i, p);
    assert forall|a: int, b: int| 0 <= a < b < u.len() implies u[a].id@ != u[b].id@ by {
        assert(u[a].id@ == s[a].id@ && u[b].id@ == s[b].id@);
    }
    let t = s.drop_last();
    assert forall|a: int, b: int| 0 <= a < b < t.len() implies t[a].id@ != t[b].id@ by {
        assert(t[a] == s[a] && t[b] == s[b]);
    }
    if i == s.len() - 1 {
        assert(u.drop_last() =~= t);
    } else {
        assert(u.drop_last() =~= t.update(i, p));
        assert(t[i] == s[i]);
        lemma_product_map_update(t, i, p);
        assert(s.last().id@ != p.id@);
    }
}

/// All products, found by id.
pub struct ProductBook {
    products: Vec<Product>,
}

impl View for ProductBook {
    type V = Map<Seq<char>, ProductV>;

    closed spec fn view(&self) -> Map<Seq<char>, ProductV> {
        product_map(self.products@)
    }
}

impl ProductBook {
    /// The stored products have distinct ids.
    pub closed spec fn wf(&self) -> bool {
        ids_distinct(self.products@)
    }

    /// A book with no products.
    pub fn new() -> (r: ProductBook)
        ensures
            r@ == Map::<Seq<char>, ProductV>::empty(),
            r.wf(),
    {
        ProductBook { products: Vec::new() }
    }

    fn find(&self, id: &String) -> (r: Option<usize>)
        requires
            self.wf(),
        ensures
            r matches Some(i) ==> i < self.products@.len() && self.products@[i as int].id@ == id@,
            r is None ==> !self@.contains_key(id@),
    {
        proof {
            lemma_product_map(self.products@);
        }
        let mut i: usize = 0;
        while i < self.products.len()
            invariant
                i <= self.products@.len(),
                forall|j: int| 0 <= j < i ==> #[trigger] self.products@[j].id@ != id@,
            decreases self.products@.len() - i,
        {
            if self.products[i].id == *id {
                return Some(i);
            }
            i = i + 1;
        }
        None
    }

    /// Every product, each once, in no particular order.
    pub fn get_all_products(&self) -> (r: Vec<Product>)
        requires
            self.wf(),
        ensures
            forall|i: int| 0 <= i < r@.len() ==> #[trigger] self@.contains_key(r@[i].id@) && self@[r@[i].id@] == r@[i]@,
            forall|k: Seq<char>| #[trigger] self@.contains_key(k) ==> exists|i: int| 0 <= i < r@.len() && r@[i].id@ == k,
            forall|i: int, j: int| 0 <= i < j < r@.len() ==> r@[i].id@ != r@[j].id@,
    {
        proof {
            lemma_product_map(self.products@);
        }
        let mut r: Vec<Product> = Vec::new();
        let mut i: usize = 0;
        while i < self.products.len()
            invariant
                i <= self.products@.len(),
                r@.len() == i,
                forall|j: int| 0 <= j < i ==> #[trigger] r@[j]@ == self.products@[j]@,
            decreases self.products@.len() - i,
        {
            r.push(self.products[i].clone());
            i = i + 1;
        }
        proof {
            assert forall|k: Seq<char>| #[trigger] self@.contains_key(k) implies exists|i: int| 0 <= i < r@.len() && r@[i].id@ == k by {
                let i = choose|i: int| 0 <= i < self.products@.len() && self.products@[i].id@ == k;
                assert(r@[i]@ == self.products@[i]@);
            }
            assert forall|i: int| 0 <= i < r@.len() implies #[trigger] self@.contains_key(r@[i].id@) && self@[r@[i].id@] == r@[i]@ by {
                assert(r@[i]@ == self.products@[i]@);
            }
            assert forall|i: int, j: int| 0 <= i < j < r@.len() implies r@[i].id@ != r@[j].id@ by {
                assert(r@[i]@ == self.products@[i]@);
                assert(r@[j]@ == self.products@[j]@);
            }
        }
        r
    }

    /// The product with the given id.
    pub fn get_product(&self, product_id: &String) -> (r: Option<&Product>)
        requires
            self.wf(),
        ensures
            r is None <==> !self@.contains_key(product_id@),
            r matches Some(p) ==> p@ == self@[product_id@],
    {
        match self.find(product_id) {
            Some(i) => {
                proof {
                    lemma_product_map(self.products@);
                    assert(product_map(self.products@).contains_key(self.products@[i as int].id@));
                }
                Some(&self.products[i])
            },
            None => None,
        }
    }

    /// Stores a product under its id, replacing one stored there before.
    pub fn add_product(&mut self, product: Product)
        requires
            old(self).wf(),
        ensures
            final(self).wf(),
            final(self)@ == old(self)@.insert(product.id@, product@),
    {
        match self.find(&product.id) {
            Some(i) => {
                proof {
                    lemma_product_map_update(self.products@, i as int, product);
                }
                self.products.set(i, product);
            },
            None => {
                proof {
                    lemma_product_map(self.products@);
                }
                let ghost p = product;
                self.products.push(product);
                proof {
                    assert(self.products@.drop_last() =~= old(self).products@);
                    assert forall|a: int, b: int| 0 <= a < b < self.products@.len() implies self.products@[a].id@
                        != self.products@[b].id@ by {
                        if b == self.products@.len() - 1 {
                            assert(old(self).products@[a] == self.products@[a]);
                            assert(self.products@[b] == p);
                        } else {
                            assert(old(self).products@[a] == self.products@[a]);
                            assert(old(self).products@[b] == self.products@[b]);
                        }
                    }
                }
            },
        }
    }

    /// Stores a product and publishes it. Returns `false`, changing nothing, when the
    /// event counter is exhausted before the product could be published.
    pub fn put_product_checked(&mut self, out: &mut Outbox, product: Product) -> (r: bool)
        requires
            old(self).wf(),
        ensures
            old(out).numbered() ==> final(out).numbered(),
            final(self).wf(),
            final(self)@ == old(self)@.insert(product.id@, product@),
            r == (old(out).sequence < u64::MAX),
            r ==> final(out).sequence == old(out).sequence + 1,
            r ==> final(out).msgs() == old(out).msgs().push(
                MessageV { sequence: (old(out).sequence + 1) as u64, message_type: MessageTypeV::Product(product@) },
            ),
    {
        let cloned = product.clone();
        self.add_product(product);
        out.publish(MessageType::Product(cloned))
    }

    /// Stores a product under its id and publishes it.
    pub fn put_product(&mut self, out: &mut Outbox, product: Product)
        requires
            old(self).wf(),
            old(out).sequence < u64::MAX,
        ensures
            old(out).numbered() ==> final(out).numbered(),
            final(self).wf(),
            final(self)@ == old(self)@.insert(product.id@, product@),
            final(out).sequence == old(out).sequence + 1,
            final(out).msgs() == old(out).msgs().push(
                MessageV { sequence: (old(out).sequence + 1) as u64, message_type: MessageTypeV::Product(product@) },
            ),
    {
        let _ = self.put_product_checked(out, product);
    }
}

} // verus!
