use vstd::prelude::*;

verus! {

/// A message queue of the broker, and where messages for it are published
/// once it is bound: an exchange and a routing key, both set or both unset.
pub struct RabbitQueue {
    pub name: String,
    pub routing_key: Option<String>,
    pub exchange_name: Option<String>,
}

impl RabbitQueue {
    /// A freshly declared queue, not bound for publishing yet.
    pub fn declared(name: &str) -> (q: RabbitQueue)
        ensures
            q.name@ == name@,
            q.routing_key is None,
            q.exchange_name is None,
    {
        RabbitQueue { name: name.to_owned(), routing_key: None, exchange_name: None }
    }

    /// Binds the queue so that messages for it are published to
    /// `exchange_name` with `routing_key`.
    pub fn bind_to_publish(&mut self, exchange_name: &str, routing_key: &str)
        ensures
            final(self).name == old(self).name,
            final(self).routing_key matches Some(k) && k@ == routing_key@,
            final(self).exchange_name matches Some(e) && e@ == exchange_name@,
    {
        self.routing_key = Some(routing_key.to_owned());
        self.exchange_name = Some(exchange_name.to_owned());
    }

    /// Whether messages can be published to this queue.
    pub fn is_bound(&self) -> (r: bool)
        ensures
            r == (self.routing_key is Some && self.exchange_name is Some),
    {
        self.routing_key.is_some() && self.exchange_name.is_some()
    }
}

} // verus!
