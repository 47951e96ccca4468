use mesh_history::nccl::{
    cuda_check, data_type_value, nccl_check, red_op_value, CudaError, DataType, NcclConfig,
    NcclStatus, RawNcclError, ReduceOp,
};

#[test]
fn cuda_check_maps_codes() {
    assert!(cuda_check(0).is_ok());
    assert!(matches!(cuda_check(1), Err(CudaError::InvalidValue)));
    assert!(matches!(cuda_check(2), Err(CudaError::MemoryAllocation)));
    assert!(matches!(cuda_check(3), Err(CudaError::InitializationError)));
    assert!(matches!(cuda_check(100), Err(CudaError::NoDevice)));
    assert!(matches!(cuda_check(101), Err(CudaError::InvalidDevice)));
    assert!(matches!(cuda_check(42), Err(CudaError::Unknown)));
}

#[test]
fn nccl_check_maps_codes() {
    assert_eq!(nccl_check(0), Ok(NcclStatus::Success));
    assert_eq!(nccl_check(1), Err(RawNcclError::UnhandledCudaError));
    assert_eq!(nccl_check(2), Err(RawNcclError::SystemError));
    assert_eq!(nccl_check(3), Err(RawNcclError::InternalError));
    assert_eq!(nccl_check(4), Err(RawNcclError::InvalidArgument));
    assert_eq!(nccl_check(5), Err(RawNcclError::InvalidUsage));
    assert_eq!(nccl_check(6), Err(RawNcclError::RemoteError));
    assert_eq!(nccl_check(7), Ok(NcclStatus::InProgress));
}

#[test]
fn reduce_op_codes() {
    assert_eq!(red_op_value(ReduceOp::Sum), 0);
    assert_eq!(red_op_value(ReduceOp::Prod), 1);
    assert_eq!(red_op_value(ReduceOp::Max), 2);
    assert_eq!(red_op_value(ReduceOp::Min), 3);
    assert_eq!(red_op_value(ReduceOp::Avg), 4);
}

#[test]
fn data_type_codes() {
    assert_eq!(data_type_value(DataType::Int8), 0);
    assert_eq!(data_type_value(DataType::Uint8), 1);
    assert_eq!(data_type_value(DataType::Int32), 2);
    assert_eq!(data_type_value(DataType::Uint32), 3);
    assert_eq!(data_type_value(DataType::Int64), 4);
    assert_eq!(data_type_value(DataType::Uint64), 5);
    assert_eq!(data_type_value(DataType::Float16), 6);
    assert_eq!(data_type_value(DataType::Float32), 7);
    assert_eq!(data_type_value(DataType::Float64), 8);
    assert_eq!(data_type_value(DataType::Bfloat16), 9);
}

#[test]
fn nccl_config_defaults() {
    let cfg = NcclConfig::default();
    assert!(cfg.blocking);
    assert_eq!(cfg.cga_cluster_size, 4);
    assert_eq!(cfg.min_ctas, 1);
    assert_eq!(cfg.max_ctas, 32);
    assert_eq!(cfg.net_name, None);
    assert!(!cfg.split_share);
}
