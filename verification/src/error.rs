//! Errors of the serial link.
use vstd::prelude::*;
use crate::text::{ascii_chars, ascii_string, dec_digits, lemma_dec_digits_shape, push_dec};

verus! {

#[verifier::external_type_specification]
#[verifier::external_body]
pub struct ExIoError(std::io::Error);

/// Failures of the serial link to the scale.
#[derive(Debug)]
pub enum WeighFlowError {
    NoPorts,
    PortOpen { port: String, reason: String },
    Disconnected,
    Timeout { seconds: u64 },
    Io(std::io::Error),
}

/// `std::io::Error`'s `Display` text. Nothing is claimed about it: it comes
/// from the operating system.
#[verifier::external_body]
fn io_error_text(e: &std::io::Error) -> String {
    e.to_string()
}

impl WeighFlowError {
    /// The message shown to the operator.
    pub fn message(&self) -> (r: String)
        ensures
            match self {
                WeighFlowError::NoPorts => r@
                    == "No se encontraron puertos seriales — verifica que el cable RS-232 esté conectado"@,
                WeighFlowError::PortOpen { port, reason } => r@ == "No se pudo abrir el puerto '"@
                    + port@ + "': "@ + reason@,
                WeighFlowError::Disconnected => r@
                    == "Puerto serial desconectado — verifica el cable RS-232"@,
                WeighFlowError::Timeout { seconds } => r@ == "Sin datos en "@ + ascii_chars(
                    dec_digits(*seconds as nat),
                ) + "s — balanza apagada o sin señal"@,
                WeighFlowError::Io(_) => exists|t: Seq<char>|
                    r@ == "Error de I/O en puerto serial: "@ + t,
            },
    {
        match self {
            WeighFlowError::NoPorts => {
                "No se encontraron puertos seriales — verifica que el cable RS-232 esté conectado".to_owned()
            },
            WeighFlowError::PortOpen { port, reason } => {
                let mut s = "No se pudo abrir el puerto '".to_owned();
                s.append(port.as_str());
                s.append("': ");
                s.append(reason.as_str());
                s
            },
            WeighFlowError::Disconnected => {
                "Puerto serial desconectado — verifica el cable RS-232".to_owned()
            },
            WeighFlowError::Timeout { seconds } => {
                let mut digits: Vec<u8> = Vec::new();
                push_dec(&mut digits, *seconds);
                proof {
                    lemma_dec_digits_shape(*seconds as nat);
                    assert(digits@ == dec_digits(*seconds as nat));
                    assert forall|i: int| 0 <= i < digits@.len() implies #[trigger] digits@[i]
                        < 128 by {
                        assert(crate::text::is_digit(dec_digits(*seconds as nat)[i]));
                    }
                }
                let d = ascii_string(digits);
                let mut s = "Sin datos en ".to_owned();
                s.append(d.as_str());
                s.append("s — balanza apagada o sin señal");
                s
            },
            WeighFlowError::Io(e) => {
                let t = io_error_text(e);
                let mut s = "Error de I/O en puerto serial: ".to_owned();
                s.append(t.as_str());
                s
            },
        }
    }
}

} // verus!
