//! Execution providers of the model runtime.

use vstd::prelude::*;

verus! {

/// What models run on.
#[derive(Debug, Clone, Copy, PartialEq, Eq, Structural)]
pub enum Provider {
    Cpu,
    Cuda,
    DirectMl,
    CoreMl,
}

/// Accelerated providers prefer FP32 exports, the CPU quantized ones.
pub fn prefers_fp32_onnx(provider: Provider) -> (r: bool)
    ensures
        r == (provider != Provider::Cpu),
{
    provider != Provider::Cpu
}

/// The accelerators that have to register before a model is loaded; none makes the
/// runtime use the CPU.
pub fn execution_providers(provider: Provider) -> (r: Vec<Provider>)
    ensures
        r@ == accelerators(provider),
{
    let mut out: Vec<Provider> = Vec::new();
    if provider != Provider::Cpu {
        out.push(provider);
    }
    assert(out@ =~= accelerators(provider));
    out
}

/// The accelerators of a provider: itself, unless it is the CPU.
pub open spec fn accelerators(provider: Provider) -> Seq<Provider> {
    if provider == Provider::Cpu {
        seq![]
    } else {
        seq![provider]
    }
}

/// Label of a provider.
pub open spec fn provider_label(provider: Provider) -> Seq<char> {
    match provider {
        Provider::Cpu => "cpu"@,
        Provider::Cuda => "cuda (strict registration; per-node CPU fallback possible)"@,
        Provider::DirectMl => "directml (strict registration; per-node CPU fallback possible)"@,
        Provider::CoreMl => "coreml (strict registration; per-node CPU fallback possible)"@,
    }
}

/// Human-readable label of a provider.
pub fn provider_name(provider: Provider) -> (r: &'static str)
    ensures
        r@ == provider_label(provider),
{
    match provider {
        Provider::Cpu => "cpu",
        Provider::Cuda => "cuda (strict registration; per-node CPU fallback possible)",
        Provider::DirectMl => "directml (strict registration; per-node CPU fallback possible)",
        Provider::CoreMl => "coreml (strict registration; per-node CPU fallback possible)",
    }
}

/// A label is "cpu" exactly where quantized exports are preferred and no accelerator has
/// to register. Elsewhere it starts with the name of the one that has to.
pub proof fn labels_tell_the_precision(provider: Provider)
    ensures
        (provider_label(provider) == "cpu"@) == (provider == Provider::Cpu),
        (accelerators(provider).len() == 0) == (provider == Provider::Cpu),
        accelerators(provider).len() <= 1,
        provider == Provider::Cuda ==> "cuda"@.is_prefix_of(provider_label(provider)),
        provider == Provider::DirectMl ==> "directml"@.is_prefix_of(provider_label(provider)),
        provider == Provider::CoreMl ==> "coreml"@.is_prefix_of(provider_label(provider)),
{
    reveal_strlit("cpu");
    reveal_strlit("cuda");
    reveal_strlit("directml");
    reveal_strlit("coreml");
    reveal_strlit("cuda (strict registration; per-node CPU fallback possible)");
    reveal_strlit("directml (strict registration; per-node CPU fallback possible)");
    reveal_strlit("coreml (strict registration; per-node CPU fallback possible)");
    assert("cpu"@[1] == 'p');
}

/// A provider other than the CPU registers itself alone, and prefers full precision.
pub proof fn accelerators_register_themselves(provider: Provider, r: Vec<Provider>, fp32: bool)
    requires
        call_ensures(execution_providers, (provider,), r),
        call_ensures(prefers_fp32_onnx, (provider,), fp32),
    ensures
        fp32 <==> provider == Provider::Cuda || provider == Provider::DirectMl || provider
            == Provider::CoreMl,
        fp32 ==> r@ == seq![provider],
        !fp32 ==> r@ == Seq::<Provider>::empty(),
{
}

} // verus!
