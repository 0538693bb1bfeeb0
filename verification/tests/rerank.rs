use rag_bone::accel::{execution_providers, prefers_fp32_onnx, provider_name, Provider};
use rag_bone::rerank::{
    find_builtin, find_hub, gte_onnx_for_provider, ms_marco_onnx_for_provider, resolve_reranker,
    unknown_reranker_message, BuiltinReranker, CpuFeatures, HubReranker, RerankerChoice,
};

fn cpu(avx512_vnni: bool, avx512f: bool, avx2: bool, arm64: bool) -> CpuFeatures {
    CpuFeatures { avx512_vnni, avx512f, avx2, arm64 }
}

#[test]
fn recipe_export_matches_execution_provider() {
    let bits = [false, true];
    let mut hosts = Vec::new();
    for vnni in bits {
        for avx512f in bits {
            for avx2 in bits {
                hosts.push(cpu(vnni, avx512f, avx2, false));
                hosts.push(cpu(vnni, avx512f, avx2, true));
            }
        }
    }
    for provider in [Provider::Cpu, Provider::Cuda, Provider::DirectMl, Provider::CoreMl] {
        for here in &hosts {
            let file = ms_marco_onnx_for_provider(provider, *here);
            if prefers_fp32_onnx(provider) {
                assert_eq!(file, "onnx/model.onnx");
                assert_eq!(gte_onnx_for_provider(provider), "onnx/model.onnx");
            } else {
                assert!(file.starts_with("onnx/model_"));
                assert_eq!(gte_onnx_for_provider(provider), "onnx/model_int8.onnx");
            }
        }
    }
}

#[test]
fn the_widest_vector_unit_decides_the_export() {
    let pick = |c| ms_marco_onnx_for_provider(Provider::Cpu, c);
    assert_eq!(pick(cpu(true, true, true, false)), "onnx/model_qint8_avx512_vnni.onnx");
    assert_eq!(pick(cpu(false, true, true, false)), "onnx/model_qint8_avx512.onnx");
    assert_eq!(pick(cpu(false, false, true, false)), "onnx/model_quint8_avx2.onnx");
    assert_eq!(pick(cpu(false, false, false, true)), "onnx/model_qint8_arm64.onnx");
    assert_eq!(pick(cpu(false, false, false, false)), "onnx/model_quint8_avx2.onnx");
}

#[test]
fn providers_have_names() {
    assert_eq!(provider_name(Provider::Cpu), "cpu");
    assert!(!prefers_fp32_onnx(Provider::Cpu));
    assert!(execution_providers(Provider::Cpu).is_empty());
    assert!(prefers_fp32_onnx(Provider::Cuda));
    for (provider, start) in [
        (Provider::Cuda, "cuda"),
        (Provider::DirectMl, "directml"),
        (Provider::CoreMl, "coreml"),
    ] {
        assert!(provider_name(provider).starts_with(start));
        assert_eq!(execution_providers(provider), [provider]);
        assert!(prefers_fp32_onnx(provider));
    }
}

fn resolve(id: &str, provider: Provider, files: &[&str]) -> RerankerChoice {
    resolve_reranker(id, "proj", provider, |p: &String| files.contains(&p.as_str()))
}

#[test]
fn rerankers_are_resolved_in_order() {
    let path = resolve("my/model.onnx", Provider::Cpu, &[]);
    assert!(matches!(path, RerankerChoice::Local(p) if p == "proj/my/model.onnx"));
    let absolute = resolve("/m/x.onnx", Provider::Cpu, &[]);
    assert!(matches!(absolute, RerankerChoice::Local(p) if p == "/m/x.onnx"));
    let builtin = resolve("bge-reranker-base", Provider::Cpu, &[]);
    assert!(matches!(builtin, RerankerChoice::Builtin(BuiltinReranker::BgeRerankerBase)));
    let hub = resolve("ms-marco-MiniLM-L6-v2", Provider::Cpu, &[]);
    assert!(matches!(hub, RerankerChoice::Hub(_)));
    let prefetched = "proj/models/rerank/ms-marco-MiniLM-L6-v2/model.onnx";
    let local = resolve("ms-marco-MiniLM-L6-v2", Provider::Cpu, &[prefetched]);
    assert!(matches!(local, RerankerChoice::Local(p) if p == prefetched));
    let wrong_export = resolve("ms-marco-MiniLM-L6-v2", Provider::Cuda, &[prefetched]);
    assert!(matches!(wrong_export, RerankerChoice::Hub(_)));
    let accelerated = "proj/models/rerank/ms-marco-MiniLM-L6-v2/model-accelerated.onnx";
    let fast = resolve("ms-marco-MiniLM-L6-v2", Provider::Cuda, &[prefetched, accelerated]);
    assert!(matches!(fast, RerankerChoice::Local(p) if p == accelerated));
    let own = resolve("mine", Provider::Cpu, &["proj/models/rerank/mine/model.onnx"]);
    assert!(matches!(own, RerankerChoice::Local(p) if p == "proj/models/rerank/mine/model.onnx"));
    assert!(matches!(resolve("mine", Provider::Cpu, &[]), RerankerChoice::Unknown));
}

#[test]
fn unknown_rerankers_are_answered_with_the_known_ones() {
    let message = unknown_reranker_message("mine", "proj");
    assert!(message.starts_with("unknown reranker 'mine'; built-in: bge-reranker-base, "));
    assert!(message.contains("auto-download: ms-marco-MiniLM-L6-v2"));
    assert!(message.ends_with("a prefetch under proj/models/rerank"));
}

#[test]
fn registries_know_their_names() {
    assert!(find_builtin("jina-reranker-v2-base-multilingual").is_some());
    assert!(find_builtin("ms-marco-MiniLM-L6-v2").is_none());
    let hub: Option<HubReranker> = find_hub("ms-marco-MiniLM-L6-v2");
    assert_eq!(hub.unwrap().repo(), "cross-encoder/ms-marco-MiniLM-L6-v2");
    assert!(find_hub("nope").is_none());
}
