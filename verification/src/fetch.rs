//! HTTP requests as the client builds them before handing them to the
//! browser's fetch.
use vstd::prelude::*;

verus! {

/// Name-value pairs as plain strings.
pub open spec fn string_pairs(v: Seq<(String, String)>) -> Seq<(Seq<char>, Seq<char>)> {
    v.map_values(|p: (String, String)| (p.0@, p.1@))
}

/// Borrowed name-value pairs as plain strings.
pub open spec fn str_pairs(v: Seq<(&str, &str)>) -> Seq<(Seq<char>, Seq<char>)> {
    v.map_values(|p: (&str, &str)| (p.0@, p.1@))
}

/// The headers of a request, in the order they are sent.
#[derive(Clone, Debug)]
pub struct Headers {
    pub headers: Vec<(String, String)>,
}

impl Default for Headers {
    /// No headers.
    fn default() -> (h: Headers)
        ensures
            h.headers@.len() == 0,
    {
        Headers { headers: Vec::new() }
    }
}

impl Headers {
    /// The given headers, in order.
    pub fn new(headers: &[(&str, &str)]) -> (h: Headers)
        ensures
            string_pairs(h.headers@) == str_pairs(headers@),
    {
        let mut out: Vec<(String, String)> = Vec::new();
        let mut i: usize = 0;
        while i < headers.len()
            invariant
                i <= headers@.len(),
                string_pairs(out@) == str_pairs(headers@.take(i as int)),
            decreases headers@.len() - i,
        {
            let (k, v) = headers[i];
            let ghost before = out@;
            out.push((k.to_owned(), v.to_owned()));
            proof {
                assert(headers@.take(i as int + 1) =~= headers@.take(i as int).push(headers@[i as int]));
                assert(string_pairs(out@) =~= string_pairs(before).push((k@, v@)));
                assert(str_pairs(headers@.take(i as int + 1)) =~= str_pairs(headers@.take(i as int)).push(
                    (k@, v@),
                ));
            }
            i += 1;
        }
        proof {
            assert(headers@.take(headers@.len() as int) =~= headers@);
        }
        Headers { headers: out }
    }

    /// Adds a header after the others.
    pub fn insert(&mut self, key: &str, value: &str)
        ensures
            string_pairs(final(self).headers@) == string_pairs(old(self).headers@).push((key@, value@)),
    {
        self.headers.push((key.to_owned(), value.to_owned()));
        proof {
            assert(string_pairs(self.headers@) =~= string_pairs(old(self).headers@).push((key@, value@)));
        }
    }
}

/// A request: method, address, body and headers.
#[derive(Clone, Debug)]
pub struct Request {
    pub method: String,
    pub url: String,
    pub body: Vec<u8>,
    pub headers: Headers,
}

/// The header every request carries: `Accept: */*`.
pub open spec fn accept_any() -> Seq<(Seq<char>, Seq<char>)> {
    seq![(seq!['A', 'c', 'c', 'e', 'p', 't'], seq!['*', '/', '*'])]
}

impl Request {
    /// A `GET` request for `url` with an empty body.
    pub fn get(url: &str) -> (r: Request)
        ensures
            r.method@ == "GET"@,
            r.url@ == url@,
            r.body@.len() == 0,
            string_pairs(r.headers.headers@) == accept_any(),
    {
        let pairs: [(&str, &str); 1] = [("Accept", "*/*")];
        proof {
            reveal_strlit("Accept");
            reveal_strlit("*/*");
            assert(pairs@.len() == 1);
            assert(pairs@[0].0@ =~= seq!['A', 'c', 'c', 'e', 'p', 't']);
            assert(pairs@[0].1@ =~= seq!['*', '/', '*']);
            assert(str_pairs(pairs@) =~= accept_any());
        }
        Request {
            method: "GET".to_owned(),
            url: url.to_owned(),
            body: Vec::new(),
            headers: Headers::new(pairs.as_slice()),
        }
    }

    /// A `POST` request for `url` carrying `body`.
    pub fn post(url: &str, body: Vec<u8>) -> (r: Request)
        ensures
            r.method@ == "POST"@,
            r.url@ == url@,
            r.body@ == body@,
            string_pairs(r.headers.headers@) == accept_any(),
    {
        let pairs: [(&str, &str); 1] = [("Accept", "*/*")];
        proof {
            reveal_strlit("Accept");
            reveal_strlit("*/*");
            assert(pairs@.len() == 1);
            assert(pairs@[0].0@ =~= seq!['A', 'c', 'c', 'e', 'p', 't']);
            assert(pairs@[0].1@ =~= seq!['*', '/', '*']);
            assert(str_pairs(pairs@) =~= accept_any());
        }
        Request {
            method: "POST".to_owned(),
            url: url.to_owned(),
            body,
            headers: Headers::new(pairs.as_slice()),
        }
    }
}

} // verus!
