//! Requests to the file host.
use vstd::prelude::*;

verus! {

/// How a request sends its parameters.
#[derive(Clone, Copy, Debug, PartialEq, Eq, Structural)]
pub enum Method {
    /// In the query of the address.
    Get,
    /// As a form in the body.
    Post,
}

/// A request with named parameters, in order.
#[derive(Debug)]
pub struct Request {
    pub method: Method,
    pub url: String,
    pub params: Vec<(String, String)>,
}

/// What a request holds.
pub ghost struct RequestView {
    pub method: Method,
    pub url: Seq<char>,
    pub params: Seq<(Seq<char>, Seq<char>)>,
}

impl View for Request {
    type V = RequestView;

    open spec fn view(&self) -> RequestView {
        RequestView {
            method: self.method,
            url: self.url@,
            params: self.params@.map_values(|p: (String, String)| (p.0@, p.1@)),
        }
    }
}

impl Request {
    /// A request without parameters.
    pub fn new(method: Method, url: &str) -> (r: Request)
        ensures
            r@.method == method,
            r@.url == url@,
            r@.params == Seq::<(Seq<char>, Seq<char>)>::empty(),
    {
        let r = Request { method, url: url.to_owned(), params: Vec::new() };
        assert(r@.params =~= Seq::<(Seq<char>, Seq<char>)>::empty());
        r
    }

    /// The request with one more parameter.
    pub fn with(self, key: &str, value: &str) -> (r: Request)
        ensures
            r@.method == self@.method,
            r@.url == self@.url,
            r@.params == self@.params.push((key@, value@)),
    {
        let mut params = self.params;
        params.push((key.to_owned(), value.to_owned()));
        let r = Request { method: self.method, url: self.url, params };
        assert(r@.params =~= self@.params.push((key@, value@)));
        r
    }
}

/// A request holds what it is made of.
pub proof fn lemma_request_holds(r: Request)
    ensures
        r@.method == r.method,
        r@.url == r.url@,
        r@.params.len() == r.params@.len(),
        forall|i: int|
            0 <= i < r.params@.len() ==> #[trigger] r@.params[i] == (
                r.params@[i].0@,
                r.params@[i].1@,
            ),
{
}

} // verus!
