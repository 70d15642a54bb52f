//! The generator's command-line options, as plain values.

use vstd::prelude::*;

verus! {

/// Which shape of synthetic log line to produce.
#[derive(Copy, Clone, Debug, PartialEq, Eq, Structural)]
pub enum LogFormat {
    Apache,
    Json,
}

/// The generator's settings: where to publish, how fast, how much per
/// batch, in which format, and where to write diagnostics.
pub struct CliArgs {
    nats_url: String,
    subject: String,
    rate: u64,
    batch_size: usize,
    format: LogFormat,
    log_file: String,
}

impl CliArgs {
    pub closed spec fn spec_nats_url(self) -> Seq<char> {
        self.nats_url@
    }

    pub closed spec fn spec_subject(self) -> Seq<char> {
        self.subject@
    }

    pub closed spec fn spec_rate(self) -> u64 {
        self.rate
    }

    pub closed spec fn spec_batch_size(self) -> usize {
        self.batch_size
    }

    pub closed spec fn spec_format(self) -> LogFormat {
        self.format
    }

    pub closed spec fn spec_log_file(self) -> Seq<char> {
        self.log_file@
    }

    pub fn new(
        nats_url: String,
        subject: String,
        rate: u64,
        batch_size: usize,
        format: LogFormat,
        log_file: String,
    ) -> (r: CliArgs)
        ensures
            r.spec_nats_url() == nats_url@,
            r.spec_subject() == subject@,
            r.spec_rate() == rate,
            r.spec_batch_size() == batch_size,
            r.spec_format() == format,
            r.spec_log_file() == log_file@,
    {
        CliArgs { nats_url, subject, rate, batch_size, format, log_file }
    }

    pub fn nats_url(&self) -> (r: &String)
        ensures
            r@ == self.spec_nats_url(),
    {
        &self.nats_url
    }

    pub fn subject(&self) -> (r: &String)
        ensures
            r@ == self.spec_subject(),
    {
        &self.subject
    }

    pub fn rate(&self) -> (r: u64)
        ensures
            r == self.spec_rate(),
    {
        self.rate
    }

    pub fn batch_size(&self) -> (r: usize)
        ensures
            r == self.spec_batch_size(),
    {
        self.batch_size
    }

    pub fn format(&self) -> (r: LogFormat)
        ensures
            r == self.spec_format(),
    {
        self.format
    }

    pub fn log_file(&self) -> (r: &String)
        ensures
            r@ == self.spec_log_file(),
    {
        &self.log_file
    }
}

} // verus!
