//! Typed models for the collective-communication layer: the numeric result
//! codes the accelerator runtime and the collective library return, mapped to
//! statuses and errors, and the encodings of reduction operations and element
//! types that the collective calls take. The foreign calls themselves happen
//! outside the library; only their plain result codes come through here.

use vstd::prelude::*;

verus! {

/// Corresponds to the accelerator runtime's error codes.
#[derive(Debug, Clone, Copy, PartialEq, Eq)]
pub enum CudaError {
    InvalidValue,
    MemoryAllocation,
    InitializationError,
    NoDevice,
    InvalidDevice,
    Unknown,
}

/// The typed outcome of a raw runtime result code.
pub open spec fn cuda_check_spec(result: u32) -> Result<(), CudaError> {
    if result == 0 {
        Ok(())
    } else if result == 1 {
        Err(CudaError::InvalidValue)
    } else if result == 2 {
        Err(CudaError::MemoryAllocation)
    } else if result == 3 {
        Err(CudaError::InitializationError)
    } else if result == 100 {
        Err(CudaError::NoDevice)
    } else if result == 101 {
        Err(CudaError::InvalidDevice)
    } else {
        Err(CudaError::Unknown)
    }
}

/// Map a raw runtime result code to a typed result.
pub fn cuda_check(result: u32) -> (r: Result<(), CudaError>)
    ensures
        r == cuda_check_spec(result),
{
    if result == 0 {
        Ok(())
    } else if result == 1 {
        Err(CudaError::InvalidValue)
    } else if result == 2 {
        Err(CudaError::MemoryAllocation)
    } else if result == 3 {
        Err(CudaError::InitializationError)
    } else if result == 100 {
        Err(CudaError::NoDevice)
    } else if result == 101 {
        Err(CudaError::InvalidDevice)
    } else {
        Err(CudaError::Unknown)
    }
}

/// Collective-library error kinds.
#[derive(Debug, Clone, Copy, PartialEq, Eq)]
pub enum RawNcclError {
    UnhandledCudaError,
    SystemError,
    InternalError,
    InvalidArgument,
    InvalidUsage,
    RemoteError,
}

/// Collective-library status: an operation either finished or is still in
/// progress.
#[derive(Debug, Clone, Copy, PartialEq, Eq)]
pub enum NcclStatus {
    Success,
    InProgress,
}

/// The typed outcome of a raw collective-library result code at or below the
/// largest code the library emits.
pub open spec fn nccl_check_spec(result: u32) -> Result<NcclStatus, RawNcclError> {
    if result == 0 {
        Ok(NcclStatus::Success)
    } else if result == 1 {
        Err(RawNcclError::UnhandledCudaError)
    } else if result == 2 {
        Err(RawNcclError::SystemError)
    } else if result == 3 {
        Err(RawNcclError::InternalError)
    } else if result == 4 {
        Err(RawNcclError::InvalidArgument)
    } else if result == 5 {
        Err(RawNcclError::InvalidUsage)
    } else if result == 6 {
        Err(RawNcclError::RemoteError)
    } else {
        Ok(NcclStatus::InProgress)
    }
}

/// Map a raw collective-library result code to a typed result. A code above
/// the largest one the library emits is a contract violation.
pub fn nccl_check(result: u32) -> (r: Result<NcclStatus, RawNcclError>)
    requires
        result <= 7,
    ensures
        r == nccl_check_spec(result),
{
    if result == 0 {
        Ok(NcclStatus::Success)
    } else if result == 1 {
        Err(RawNcclError::UnhandledCudaError)
    } else if result == 2 {
        Err(RawNcclError::SystemError)
    } else if result == 3 {
        Err(RawNcclError::InternalError)
    } else if result == 4 {
        Err(RawNcclError::InvalidArgument)
    } else if result == 5 {
        Err(RawNcclError::InvalidUsage)
    } else if result == 6 {
        Err(RawNcclError::RemoteError)
    } else {
        Ok(NcclStatus::InProgress)
    }
}

/// Collective reduction operations.
#[derive(Debug, Clone, Copy, PartialEq, Eq)]
pub enum ReduceOp {
    Sum,
    Prod,
    Max,
    Min,
    Avg,
}

/// The numeric encoding of a reduction operation in the collective library's
/// calling convention.
pub fn red_op_value(op: ReduceOp) -> (r: u32)
    ensures
        r == (match op {
            ReduceOp::Sum => 0u32,
            ReduceOp::Prod => 1u32,
            ReduceOp::Max => 2u32,
            ReduceOp::Min => 3u32,
            ReduceOp::Avg => 4u32,
        }),
{
    match op {
        ReduceOp::Sum => 0,
        ReduceOp::Prod => 1,
        ReduceOp::Max => 2,
        ReduceOp::Min => 3,
        ReduceOp::Avg => 4,
    }
}

/// Collective element types.
#[derive(Debug, Clone, Copy, PartialEq, Eq)]
pub enum DataType {
    Int8,
    Uint8,
    Int32,
    Uint32,
    Int64,
    Uint64,
    Float16,
    Float32,
    Float64,
    Bfloat16,
}

/// The numeric encoding of an element type in the collective library's
/// calling convention.
pub fn data_type_value(dt: DataType) -> (r: u32)
    ensures
        r == (match dt {
            DataType::Int8 => 0u32,
            DataType::Uint8 => 1u32,
            DataType::Int32 => 2u32,
            DataType::Uint32 => 3u32,
            DataType::Int64 => 4u32,
            DataType::Uint64 => 5u32,
            DataType::Float16 => 6u32,
            DataType::Float32 => 7u32,
            DataType::Float64 => 8u32,
            DataType::Bfloat16 => 9u32,
        }),
{
    match dt {
        DataType::Int8 => 0,
        DataType::Uint8 => 1,
        DataType::Int32 => 2,
        DataType::Uint32 => 3,
        DataType::Int64 => 4,
        DataType::Uint64 => 5,
        DataType::Float16 => 6,
        DataType::Float32 => 7,
        DataType::Float64 => 8,
        DataType::Bfloat16 => 9,
    }
}

/// Collective-communicator configuration.
#[derive(Debug)]
pub struct NcclConfig {
    pub blocking: bool,
    pub cga_cluster_size: u8,
    pub min_ctas: u8,
    pub max_ctas: u8,
    pub net_name: Option<String>,
    pub split_share: bool,
}

impl Default for NcclConfig {
    /// The library's default communicator configuration.
    fn default() -> (r: Self)
        ensures
            r.blocking == true,
            r.cga_cluster_size == 4,
            r.min_ctas == 1,
            r.max_ctas == 32,
            r.net_name is None,
            r.split_share == false,
    {
        NcclConfig {
            blocking: true,
            cga_cluster_size: 4,
            min_ctas: 1,
            max_ctas: 32,
            net_name: None,
            split_share: false,
        }
    }
}

} // verus!
