//! Early acknowledgements to the client next to this worker.
use crate::keys::{digest_keys, Digest, PublicKey, WorkerId};
use crate::wire::encoded_words;
use crate::worker::metadata::{
    collect_counters, counters_for, lemma_no_such_client, BatchTransactionMap,
};
use vstd::prelude::*;

pub use crate::node::client::CertificateAck;

verus! {

/// What to do with an acknowledgement.
pub enum AckAction {
    /// Nothing.
    Nothing,
    /// Send these bytes over the connection that is open.
    Send(Vec<u8>),
    /// Connect to the client with this number and then send these bytes.
    ConnectAndSend(u8, Vec<u8>),
}

/// Decides what the client next to this worker is told when a certificate forms.
pub struct CertificateAckSender {
    /// The public key of this authority.
    pub name: PublicKey,
    /// Worker ID of this worker.
    pub worker_id: WorkerId,
    /// Total number of clients in the system.
    pub total_clients: usize,
    /// The number of the client next to this worker, which is the number of this authority.
    pub co_located_client_id: usize,
    /// Whether there is a connection to that client.
    pub connected: bool,
}

impl CertificateAckSender {
    /// The task before the first certificate, given the number of this authority.
    pub fn new(
        name: PublicKey,
        worker_id: WorkerId,
        total_clients: usize,
        authority_id: usize,
    ) -> (sender: Self)
        ensures
            sender == (CertificateAckSender {
                name,
                worker_id,
                total_clients,
                co_located_client_id: authority_id,
                connected: false,
            }),
    {
        CertificateAckSender {
            name,
            worker_id,
            total_clients,
            co_located_client_id: authority_id,
            connected: false,
        }
    }

    /// Takes the digests in a certificate: the client next to this worker is told of its own
    /// transactions, if there are any. `known` says whether the committee has that client.
    pub fn on_certificate(
        &self,
        map: &BatchTransactionMap,
        digests: &Vec<Digest>,
        known: bool,
    ) -> (action: AckAction)
        requires
            map.wf(),
        ensures
            ({
                let acked = counters_for(
                    map@,
                    digest_keys(digests@),
                    self.co_located_client_id as int,
                );
                match action {
                    AckAction::Nothing => acked.len() == 0 || !(self.connected || known),
                    AckAction::Send(bytes) => acked.len() > 0 && self.connected && bytes@
                        == encoded_words(acked),
                    AckAction::ConnectAndSend(client, bytes) => acked.len() > 0 && !self.connected
                        && known && client == self.co_located_client_id && bytes@ == encoded_words(
                        acked,
                    ),
                }
            }),
    {
        let acked_transactions = collect_counters(map, digests, self.co_located_client_id);
        if acked_transactions.len() == 0 {
            return AckAction::Nothing;
        }
        proof {
            if self.co_located_client_id > u8::MAX {
                lemma_no_such_client(
                    map@,
                    digest_keys(digests@),
                    self.co_located_client_id as int,
                );
            }
        }
        let ack = CertificateAck { acked_transactions };
        if self.connected {
            AckAction::Send(ack.encode())
        } else if known {
            AckAction::ConnectAndSend(self.co_located_client_id as u8, ack.encode())
        } else {
            AckAction::Nothing
        }
    }

    /// Takes the outcome of an attempt to connect. Says whether to go on and send.
    pub fn on_connect(&mut self, succeeded: bool) -> (send: bool)
        ensures
            send == succeeded,
            *final(self) == (CertificateAckSender {
                connected: old(self).connected || succeeded,
                ..*old(self)
            }),
    {
        if succeeded {
            self.connected = true;
        }
        succeeded
    }

    /// Takes the outcome of an attempt to send: a connection that failed is given up, so that
    /// the next acknowledgement opens another.
    pub fn on_sent(&mut self, succeeded: bool)
        ensures
            *final(self) == (CertificateAckSender {
                connected: old(self).connected && succeeded,
                ..*old(self)
            }),
    {
        if !succeeded {
            self.connected = false;
        }
    }
}

} // verus!
