# 4ward

Serverless mail for a domain on AWS SES, in two parts: a relay that hands mail for the domain's
aliases on to the mailboxes behind them, and an interface for sending messages with bearer tokens.

- `src/` is the library. It holds the decisions and the data of the project, and is verified with
  Verus: routing, the plan for a message and the message that is relayed in its place, ARC seals,
  the validity of requests and configurations, the search for tokens, DNS records.
- `app/` is the program around it: the command line, the two functions that run on Lambda, and
  their traffic with AWS.
- `tests/` runs the library with the crates that it is built on.

What the library has from other crates stands in `src/mail.rs`, `src/crypto.rs` and `src/routes.rs`,
and what it has from std in `src/text.rs` and `src/crypto.rs`, each with what is claimed of it.
Messages on which the parser may not return are told apart in `src/intake.rs` and not handed to it.
The functions named `law_…` state what holds of the library as a whole: that a relay drops its own
messages, sealed or not, that a sealed message is not sealed again and what its seal does not cover,
that nothing is sent for a call before its token was verified, that what is deployed is what was
configured, and so on.
